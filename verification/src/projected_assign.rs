//! Nearest centroids by branch and bound over lower bounds of the distances.
//!
//! Bounds are bit patterns of IEEE 754 double-precision numbers.
use crate::arith::smaller;
use crate::nearest::measure;
use crate::order::{float_is_nan, float_key, float_less, sort_pairs};
use vstd::prelude::*;

verus! {

/// The pattern without its sign bit.
pub open spec fn magnitude64(bits: u64) -> int {
    if bits < 0x8000_0000_0000_0000 {
        bits as int
    } else {
        bits - 0x8000_0000_0000_0000
    }
}

/// The pattern is not a number.
pub open spec fn is_nan64(bits: u64) -> bool {
    magnitude64(bits) > 0x7FF0_0000_0000_0000
}

/// Orders numbers by value; both zeros have the same key.
pub open spec fn numeric_key64(bits: u64) -> int {
    if bits < 0x8000_0000_0000_0000 {
        bits as int
    } else {
        -magnitude64(bits)
    }
}

/// Orders all patterns, negative before positive and the two zeros apart.
pub open spec fn total_key64(bits: u64) -> int {
    if bits < 0x8000_0000_0000_0000 {
        bits as int
    } else {
        -magnitude64(bits) - 1
    }
}

/// Numeric `a < b`; false when either is not a number.
pub open spec fn less64(a: u64, b: u64) -> bool {
    !is_nan64(a) && !is_nan64(b) && numeric_key64(a) < numeric_key64(b)
}

/// Numeric `a <= b`; false when either is not a number.
pub open spec fn at_most64(a: u64, b: u64) -> bool {
    !is_nan64(a) && !is_nan64(b) && numeric_key64(a) <= numeric_key64(b)
}

fn double_is_nan(bits: u64) -> (nan: bool)
    ensures
        nan == is_nan64(bits),
{
    if bits < 0x8000_0000_0000_0000 {
        bits > 0x7FF0_0000_0000_0000
    } else {
        bits - 0x8000_0000_0000_0000 > 0x7FF0_0000_0000_0000
    }
}

fn double_key(bits: u64) -> (key: i64)
    ensures
        key == numeric_key64(bits),
{
    if bits < 0x8000_0000_0000_0000 {
        bits as i64
    } else {
        -((bits - 0x8000_0000_0000_0000) as i64)
    }
}

fn double_total_key(bits: u64) -> (key: i64)
    ensures
        key == total_key64(bits),
{
    if bits < 0x8000_0000_0000_0000 {
        bits as i64
    } else {
        -((bits - 0x8000_0000_0000_0000) as i64) - 1
    }
}

fn double_less(a: u64, b: u64) -> (result: bool)
    ensures
        result == less64(a, b),
{
    !double_is_nan(a) && !double_is_nan(b) && double_key(a) < double_key(b)
}

fn double_at_most(a: u64, b: u64) -> (result: bool)
    ensures
        result == at_most64(a, b),
{
    !double_is_nan(a) && !double_is_nan(b) && double_key(a) <= double_key(b)
}

/// Candidates that are evaluated before the rest is pruned again.
pub const STAGE: usize = 32;

/// Candidates that are evaluated together.
pub const GROUP: usize = 4;

/// The best centroid so far, the bound that nothing better exceeds, and how
/// many distances were computed.
#[verifier::ext_equal]
pub struct SearchState {
    pub distance: u32,
    pub index: usize,
    pub upper: u64,
    pub evaluations: nat,
}

/// A centroid is better: nearer, or as near with a smaller index.
pub open spec fn is_better(distance: u32, index: usize, best: u32, best_index: usize) -> bool {
    crate::order::less(distance, best) || crate::distance::same_number(distance, best) && index
        < best_index
}

/// The better of the best so far and some centroids.
pub open spec fn improved(best: (u32, usize), distances: Seq<u32>, rows: Seq<usize>) -> (u32, usize)
    decreases rows.len(),
{
    if rows.len() == 0 {
        best
    } else {
        let before = improved(best, distances, rows.drop_last());
        let c = rows.last();
        if is_better(distances[c as int], c, before.0, before.1) {
            (distances[c as int], c)
        } else {
            before
        }
    }
}

/// The state after a group was evaluated.
pub open spec fn after_group(
    state: SearchState,
    group: Seq<usize>,
    distances: Seq<u32>,
    upper_of: spec_fn(u32) -> u64,
) -> SearchState {
    let (distance, index) = improved((state.distance, state.index), distances, group);
    SearchState {
        distance,
        index,
        upper: upper_of(distance),
        evaluations: state.evaluations + group.len(),
    }
}

/// The first group of a list.
pub open spec fn first_group(rows: Seq<usize>) -> nat {
    if rows.len() <= GROUP {
        rows.len()
    } else {
        GROUP as nat
    }
}

/// Evaluates a list group by group until the next bound exceeds the upper one.
pub open spec fn evaluated(
    rows: Seq<usize>,
    bounds: Seq<u64>,
    distances: Seq<u32>,
    upper_of: spec_fn(u32) -> u64,
    state: SearchState,
) -> SearchState
    decreases rows.len(),
{
    if rows.len() == 0 || less64(state.upper, bounds[rows[0] as int]) {
        state
    } else {
        let take = first_group(rows) as int;
        evaluated(
            rows.skip(take),
            bounds,
            distances,
            upper_of,
            after_group(state, rows.take(take), distances, upper_of),
        )
    }
}

/// The rows whose bounds do not exceed the upper one.
pub open spec fn within(rows: Seq<usize>, bounds: Seq<u64>, upper: u64) -> Seq<usize>
    decreases rows.len(),
{
    if rows.len() == 0 {
        Seq::empty()
    } else {
        let before = within(rows.drop_last(), bounds, upper);
        if at_most64(bounds[rows.last() as int], upper) {
            before.push(rows.last())
        } else {
            before
        }
    }
}

/// Pruning only removes rows.
pub proof fn lemma_within(rows: Seq<usize>, bounds: Seq<u64>, upper: u64)
    ensures
        within(rows, bounds, upper).len() <= rows.len(),
        forall|j: int|
            0 <= j < within(rows, bounds, upper).len() ==> rows.contains(
                #[trigger] within(rows, bounds, upper)[j],
            ),
        forall|j: int|
            0 <= j < rows.len() && at_most64(bounds[#[trigger] rows[j] as int], upper) ==> within(
                rows,
                bounds,
                upper,
            ).contains(rows[j]),
    decreases rows.len(),
{
    if rows.len() > 0 {
        let rest = rows.drop_last();
        lemma_within(rest, bounds, upper);
        let before = within(rest, bounds, upper);
        let now = within(rows, bounds, upper);
        assert forall|j: int| 0 <= j < now.len() implies rows.contains(#[trigger] now[j]) by {
            if j < before.len() {
                assert(rest.contains(before[j]));
                let i = choose|i: int| 0 <= i < rest.len() && rest[i] == before[j];
                assert(rows[i] == now[j]);
            } else {
                assert(rows[rows.len() - 1] == now[j]);
            }
        }
        assert forall|j: int|
            0 <= j < rows.len() && at_most64(bounds[#[trigger] rows[j] as int], upper) implies
            now.contains(rows[j]) by {
            if j < rest.len() {
                assert(rest[j] == rows[j]);
                assert(before.contains(rest[j]));
                let i = choose|i: int| 0 <= i < before.len() && before[i] == rest[j];
                assert(now[i] == rows[j]);
            } else {
                assert(now[before.len() as int] == rows[j]);
            }
        }
    }
}

/// The first stage of a list.
pub open spec fn first_stage(rows: Seq<usize>) -> nat {
    if rows.len() <= STAGE {
        rows.len()
    } else {
        STAGE as nat
    }
}

/// Evaluates the first stage of a list and prunes what is left; then goes on
/// with the rest in stages, or at once if much is left.
pub open spec fn staged(
    rows: Seq<usize>,
    bounds: Seq<u64>,
    distances: Seq<u32>,
    upper_of: spec_fn(u32) -> u64,
    state: SearchState,
) -> SearchState
    decreases rows.len(),
{
    if rows.len() == 0 {
        state
    } else {
        let stage = first_stage(rows) as int;
        let next = evaluated(rows.take(stage), bounds, distances, upper_of, state);
        if less64(next.upper, bounds[rows[stage - 1] as int]) {
            next
        } else {
            let rest = within(rows.skip(stage), bounds, next.upper);
            proof {
                lemma_within(rows.skip(stage), bounds, next.upper);
            }
            if rest.len() > 2 * STAGE {
                evaluated(rest, bounds, distances, upper_of, next)
            } else {
                staged(rest, bounds, distances, upper_of, next)
            }
        }
    }
}

/// The first of the smallest bounds; zero if none is a number.
pub open spec fn is_first_least(bounds: Seq<u64>, first: int) -> bool {
    if forall|i: int| 0 <= i < bounds.len() ==> is_nan64(#[trigger] bounds[i]) {
        first == 0
    } else {
        &&& 0 <= first < bounds.len()
        &&& !is_nan64(bounds[first])
        &&& forall|i: int| 0 <= i < bounds.len() ==> !less64(#[trigger] bounds[i], bounds[first])
        &&& forall|i: int|
            0 <= i < first ==> is_nan64(#[trigger] bounds[i]) || less64(bounds[first], bounds[i])
    }
}

/// The state after the centroid with the least bound was evaluated.
pub open spec fn begun(
    first: usize,
    distances: Seq<u32>,
    upper_of: spec_fn(u32) -> u64,
) -> SearchState {
    SearchState {
        distance: distances[first as int],
        index: first,
        upper: upper_of(distances[first as int]),
        evaluations: 1,
    }
}

/// Row `c` comes no later than `b` by bound and then by index.
pub open spec fn bound_ordered(bounds: Seq<u64>, a: usize, b: usize) -> bool {
    total_key64(bounds[a as int]) < total_key64(bounds[b as int]) || total_key64(bounds[a as int])
        == total_key64(bounds[b as int]) && a < b
}

/// The other centroids whose bounds do not exceed the upper one, by bound and
/// then by index.
pub open spec fn is_agenda(bounds: Seq<u64>, first: usize, upper: u64, agenda: Seq<usize>) -> bool {
    &&& forall|j: int|
        0 <= j < agenda.len() ==> {
            &&& (#[trigger] agenda[j]) < bounds.len()
            &&& agenda[j] != first
            &&& at_most64(bounds[agenda[j] as int], upper)
        }
    &&& forall|i: int, j: int|
        0 <= i < j < agenda.len() ==> bound_ordered(
            bounds,
            #[trigger] agenda[i],
            #[trigger] agenda[j],
        )
    &&& forall|c: int|
        0 <= c < bounds.len() && c != first && at_most64(#[trigger] bounds[c], upper)
            ==> agenda.contains(c as usize)
}

/// What a row's search finds, given the first centroid and the agenda.
pub open spec fn searched(
    bounds: Seq<u64>,
    distances: Seq<u32>,
    upper_of: spec_fn(u32) -> u64,
    first: usize,
    agenda: Seq<usize>,
) -> SearchState {
    staged(agenda, bounds, distances, upper_of, begun(first, distances, upper_of))
}

/// A search of a row, with some first centroid and agenda.
pub open spec fn is_search(
    bounds: Seq<u64>,
    distances: Seq<u32>,
    upper_of: spec_fn(u32) -> u64,
    found: SearchState,
) -> bool {
    exists|first: usize, agenda: Seq<usize>|
        {
            &&& is_first_least(bounds, first as int)
            &&& is_agenda(bounds, first, upper_of(distances[first as int]), agenda)
            &&& found == #[trigger] searched(bounds, distances, upper_of, first, agenda)
        }
}

/// A centroid whose bound exceeds the upper bound of another one's distance is
/// farther than that other one.
pub open spec fn bounds_are_sound(
    bounds: Seq<u64>,
    distances: Seq<u32>,
    upper_of: spec_fn(u32) -> u64,
) -> bool {
    &&& bounds.len() == distances.len()
    &&& forall|c: int| 0 <= c < bounds.len() ==> !is_nan64(#[trigger] bounds[c])
    &&& forall|c: int|
        0 <= c < distances.len() ==> !crate::order::is_nan(#[trigger] distances[c]) && !is_nan64(
            upper_of(distances[c]),
        )
    &&& forall|i: int, c: int|
        #![trigger distances[i], bounds[c]]
        0 <= i < distances.len() && 0 <= c < bounds.len() && less64(
            upper_of(distances[i]),
            bounds[c],
        ) ==> crate::order::less(distances[i], distances[c])
}

/// No centroid is better than the one given.
pub open spec fn is_nearest_index(distances: Seq<u32>, index: int) -> bool {
    &&& 0 <= index < distances.len()
    &&& forall|c: int|
        0 <= c < distances.len() ==> !is_better(
            #[trigger] distances[c],
            c as usize,
            distances[index],
            index as usize,
        )
}

/// A state that holds a centroid with its distance and upper bound.
spec fn holds_centroid(
    distances: Seq<u32>,
    upper_of: spec_fn(u32) -> u64,
    state: SearchState,
) -> bool {
    &&& state.index < distances.len()
    &&& state.distance == distances[state.index as int]
    &&& state.upper == upper_of(state.distance)
}

/// The centroid is not better than the best.
spec fn is_beaten(distances: Seq<u32>, state: SearchState, c: int) -> bool {
    !is_better(distances[c], c as usize, state.distance, state.index)
}

/// Everything beaten before is still beaten.
spec fn keeps_beaten(distances: Seq<u32>, before: SearchState, after: SearchState) -> bool {
    forall|c: int|
        0 <= c < distances.len() && #[trigger] is_beaten(distances, before, c) ==> is_beaten(
            distances,
            after,
            c,
        )
}

/// Comparing centroids improves the best and beats all of them.
proof fn lemma_improved(
    distances: Seq<u32>,
    best: (u32, usize),
    rows: Seq<usize>,
)
    requires
        distances.len() <= usize::MAX,
        best.1 < distances.len(),
        best.0 == distances[best.1 as int],
        forall|c: int| 0 <= c < distances.len() ==> !crate::order::is_nan(#[trigger] distances[c]),
        forall|j: int| 0 <= j < rows.len() ==> #[trigger] rows[j] < distances.len(),
    ensures
        ({
            let after = improved(best, distances, rows);
            &&& after.1 < distances.len()
            &&& after.0 == distances[after.1 as int]
            &&& forall|c: int|
                0 <= c < distances.len() && !is_better(
                    #[trigger] distances[c],
                    c as usize,
                    best.0,
                    best.1,
                ) ==> !is_better(distances[c], c as usize, after.0, after.1)
            &&& forall|j: int|
                0 <= j < rows.len() ==> !is_better(
                    distances[#[trigger] rows[j] as int],
                    rows[j],
                    after.0,
                    after.1,
                )
        }),
    decreases rows.len(),
{
    if rows.len() > 0 {
        let rest = rows.drop_last();
        assert forall|j: int| 0 <= j < rest.len() implies #[trigger] rest[j] < distances.len() by {
            assert(rest[j] == rows[j]);
        }
        lemma_improved(distances, best, rest);
        let before = improved(best, distances, rest);
        let after = improved(best, distances, rows);
        assert(rows[rows.len() - 1] == rows.last());
        assert forall|c: int|
            0 <= c < distances.len() && !is_better(
                #[trigger] distances[c],
                c as usize,
                best.0,
                best.1,
            ) implies !is_better(distances[c], c as usize, after.0, after.1) by {
            assert(!is_better(distances[c], c as usize, before.0, before.1));
        }
        assert forall|j: int| 0 <= j < rows.len() implies !is_better(
            distances[#[trigger] rows[j] as int],
            rows[j],
            after.0,
            after.1,
        ) by {
            if j < rest.len() {
                assert(rest[j] == rows[j]);
                let c = rest[j] as int;
                assert(!is_better(distances[c], rest[j], before.0, before.1));
            }
        }
    }
}

/// Rows ascend by bound.
spec fn bounds_ascend(rows: Seq<usize>, bounds: Seq<u64>) -> bool {
    &&& forall|j: int| 0 <= j < rows.len() ==> #[trigger] rows[j] < bounds.len()
    &&& forall|i: int, j: int|
        0 <= i <= j < rows.len() ==> numeric_key64(bounds[#[trigger] rows[i] as int])
            <= numeric_key64(bounds[#[trigger] rows[j] as int])
}

/// A row whose bound exceeds the upper one is beaten.
proof fn lemma_exceeding_is_beaten(
    bounds: Seq<u64>,
    distances: Seq<u32>,
    upper_of: spec_fn(u32) -> u64,
    state: SearchState,
    c: int,
)
    requires
        bounds_are_sound(bounds, distances, upper_of),
        holds_centroid(distances, upper_of, state),
        0 <= c < distances.len(),
        less64(state.upper, bounds[c]),
    ensures
        is_beaten(distances, state, c),
{
    assert(less64(upper_of(distances[state.index as int]), bounds[c]));
    assert(crate::order::less(distances[state.index as int], distances[c]));
}

/// Evaluating a list beats all its rows.
proof fn lemma_evaluated(
    rows: Seq<usize>,
    bounds: Seq<u64>,
    distances: Seq<u32>,
    upper_of: spec_fn(u32) -> u64,
    state: SearchState,
)
    requires
        distances.len() <= usize::MAX,
        bounds_are_sound(bounds, distances, upper_of),
        holds_centroid(distances, upper_of, state),
        bounds_ascend(rows, bounds),
    ensures
        ({
            let after = evaluated(rows, bounds, distances, upper_of, state);
            &&& holds_centroid(distances, upper_of, after)
            &&& keeps_beaten(distances, state, after)
            &&& forall|j: int|
                0 <= j < rows.len() ==> is_beaten(distances, after, #[trigger] rows[j] as int)
        }),
    decreases rows.len(),
{
    let after = evaluated(rows, bounds, distances, upper_of, state);
    if rows.len() == 0 {
    } else if less64(state.upper, bounds[rows[0] as int]) {
        assert forall|j: int| 0 <= j < rows.len() implies is_beaten(
            distances,
            after,
            #[trigger] rows[j] as int,
        ) by {
            let _ = rows[0];
            assert(!is_nan64(bounds[rows[j] as int]));
            lemma_exceeding_is_beaten(bounds, distances, upper_of, state, rows[j] as int);
        }
    } else {
        let take = first_group(rows) as int;
        let group = rows.take(take);
        let rest = rows.skip(take);
        let next = after_group(state, group, distances, upper_of);
        assert forall|j: int| 0 <= j < group.len() implies #[trigger] group[j] < distances.len() by {
            assert(group[j] == rows[j]);
        }
        lemma_improved(distances, (state.distance, state.index), group);
        assert(holds_centroid(distances, upper_of, next));
        assert(keeps_beaten(distances, state, next)) by {
            assert forall|c: int|
                0 <= c < distances.len() && #[trigger] is_beaten(distances, state, c) implies
                is_beaten(distances, next, c) by {
                let _ = distances[c];
            }
        }
        assert(bounds_ascend(rest, bounds)) by {
            assert forall|j: int| 0 <= j < rest.len() implies #[trigger] rest[j] < bounds.len() by {
                assert(rest[j] == rows[j + take]);
            }
            assert forall|i: int, j: int| 0 <= i <= j < rest.len() implies numeric_key64(
                bounds[#[trigger] rest[i] as int],
            ) <= numeric_key64(bounds[#[trigger] rest[j] as int]) by {
                assert(rest[i] == rows[i + take]);
                assert(rest[j] == rows[j + take]);
            }
        }
        lemma_evaluated(rest, bounds, distances, upper_of, next);
        assert(keeps_beaten(distances, state, after)) by {
            assert forall|c: int|
                0 <= c < distances.len() && #[trigger] is_beaten(distances, state, c) implies
                is_beaten(distances, after, c) by {
                assert(is_beaten(distances, next, c));
            }
        }
        assert forall|j: int| 0 <= j < rows.len() implies is_beaten(
            distances,
            after,
            #[trigger] rows[j] as int,
        ) by {
            if j < take {
                assert(group[j] == rows[j]);
                assert(is_beaten(distances, next, rows[j] as int));
            } else {
                assert(rest[j - take] == rows[j]);
            }
        }
    }
}

/// Pruning keeps the order of the bounds.
proof fn lemma_within_ascends(rows: Seq<usize>, bounds: Seq<u64>, upper: u64)
    requires
        bounds_ascend(rows, bounds),
    ensures
        bounds_ascend(within(rows, bounds, upper), bounds),
    decreases rows.len(),
{
    if rows.len() > 0 {
        let rest = rows.drop_last();
        assert(bounds_ascend(rest, bounds)) by {
            assert forall|j: int| 0 <= j < rest.len() implies #[trigger] rest[j] < bounds.len() by {
                assert(rest[j] == rows[j]);
            }
            assert forall|i: int, j: int| 0 <= i <= j < rest.len() implies numeric_key64(
                bounds[#[trigger] rest[i] as int],
            ) <= numeric_key64(bounds[#[trigger] rest[j] as int]) by {
                assert(rest[i] == rows[i] && rest[j] == rows[j]);
            }
        }
        lemma_within_ascends(rest, bounds, upper);
        lemma_within(rest, bounds, upper);
        let before = within(rest, bounds, upper);
        let now = within(rows, bounds, upper);
        let last = rows[rows.len() - 1];
        assert forall|i: int, j: int| 0 <= i <= j < now.len() implies numeric_key64(
            bounds[#[trigger] now[i] as int],
        ) <= numeric_key64(bounds[#[trigger] now[j] as int]) by {
            if j < before.len() {
                assert(before[i] == now[i] && before[j] == now[j]);
            } else if i < before.len() {
                assert(rest.contains(before[i]));
                let q = choose|q: int| 0 <= q < rest.len() && rest[q] == before[i];
                assert(rows[q] == now[i]);
                assert(now[j] == last);
            }
        }
        assert forall|j: int| 0 <= j < now.len() implies #[trigger] now[j] < bounds.len() by {
            if j < before.len() {
                assert(before[j] == now[j]);
            } else {
                assert(now[j] == last);
            }
        }
    }
}

/// Searching a list in stages beats all its rows.
#[verifier::spinoff_prover]
#[verifier::rlimit(30)]
proof fn lemma_staged(
    rows: Seq<usize>,
    bounds: Seq<u64>,
    distances: Seq<u32>,
    upper_of: spec_fn(u32) -> u64,
    state: SearchState,
)
    requires
        distances.len() <= usize::MAX,
        bounds_are_sound(bounds, distances, upper_of),
        holds_centroid(distances, upper_of, state),
        bounds_ascend(rows, bounds),
    ensures
        ({
            let after = staged(rows, bounds, distances, upper_of, state);
            &&& holds_centroid(distances, upper_of, after)
            &&& keeps_beaten(distances, state, after)
            &&& forall|j: int|
                0 <= j < rows.len() ==> is_beaten(distances, after, #[trigger] rows[j] as int)
        }),
    decreases rows.len(),
{
    let after = staged(rows, bounds, distances, upper_of, state);
    if rows.len() > 0 {
        let stage = first_stage(rows) as int;
        let head = rows.take(stage);
        let tail = rows.skip(stage);
        let next = evaluated(head, bounds, distances, upper_of, state);
        lemma_part_ascends(rows, bounds, 0, stage);
        lemma_part_ascends(rows, bounds, stage, rows.len() as int);
        assert(head =~= rows.subrange(0, stage));
        assert(tail =~= rows.subrange(stage, rows.len() as int));
        lemma_evaluated(head, bounds, distances, upper_of, state);
        if less64(next.upper, bounds[rows[stage - 1] as int]) {
            assert forall|j: int| 0 <= j < rows.len() implies is_beaten(
                distances,
                after,
                #[trigger] rows[j] as int,
            ) by {
                if j < stage {
                    assert(head[j] == rows[j]);
                } else {
                    let _ = rows[stage - 1];
                    assert(!is_nan64(bounds[rows[j] as int]));
                    lemma_exceeding_is_beaten(bounds, distances, upper_of, next, rows[j] as int);
                }
            }
        } else {
            let rest = within(tail, bounds, next.upper);
            lemma_within(tail, bounds, next.upper);
            lemma_within_ascends(tail, bounds, next.upper);
            if rest.len() > 2 * STAGE {
                lemma_evaluated(rest, bounds, distances, upper_of, next);
            } else {
                lemma_staged(rest, bounds, distances, upper_of, next);
            }
            assert(keeps_beaten(distances, state, after)) by {
                assert forall|c: int|
                    0 <= c < distances.len() && #[trigger] is_beaten(distances, state, c) implies
                    is_beaten(distances, after, c) by {
                    assert(is_beaten(distances, next, c));
                }
            }
            assert forall|j: int| 0 <= j < rows.len() implies is_beaten(
                distances,
                after,
                #[trigger] rows[j] as int,
            ) by {
                if j < stage {
                    assert(head[j] == rows[j]);
                    assert(is_beaten(distances, next, rows[j] as int));
                } else {
                    assert(tail[j - stage] == rows[j]);
                    let c = rows[j];
                    if at_most64(bounds[c as int], next.upper) {
                        assert(rest.contains(tail[j - stage]));
                        let q = choose|q: int| 0 <= q < rest.len() && rest[q] == c;
                        assert(is_beaten(distances, after, rest[q] as int));
                    } else {
                        assert(!is_nan64(bounds[c as int]));
                        assert(!is_nan64(upper_of(distances[next.index as int])));
                        lemma_exceeding_is_beaten(bounds, distances, upper_of, next, c as int);
                        assert(is_beaten(distances, next, c as int));
                    }
                }
            }
        }
    }
}

proof fn lemma_part_ascends(rows: Seq<usize>, bounds: Seq<u64>, from: int, to: int)
    requires
        bounds_ascend(rows, bounds),
        0 <= from <= to <= rows.len(),
    ensures
        bounds_ascend(rows.subrange(from, to), bounds),
{
    let part = rows.subrange(from, to);
    assert forall|j: int| 0 <= j < part.len() implies #[trigger] part[j] < bounds.len() by {
        assert(part[j] == rows[from + j]);
    }
    assert forall|i: int, j: int| 0 <= i <= j < part.len() implies numeric_key64(
        bounds[#[trigger] part[i] as int],
    ) <= numeric_key64(bounds[#[trigger] part[j] as int]) by {
        assert(part[i] == rows[from + i]);
        assert(part[j] == rows[from + j]);
    }
}

/// Where the bounds are sound, the search finds the nearest centroid, and of
/// several the one with the smallest index.
pub proof fn law_search_finds_the_nearest(
    bounds: Seq<u64>,
    distances: Seq<u32>,
    upper_of: spec_fn(u32) -> u64,
    found: SearchState,
)
    requires
        0 < distances.len() <= usize::MAX,
        bounds_are_sound(bounds, distances, upper_of),
        is_search(bounds, distances, upper_of, found),
    ensures
        is_nearest_index(distances, found.index as int),
{
    let (first, agenda) = choose|first: usize, agenda: Seq<usize>|
        {
            &&& is_first_least(bounds, first as int)
            &&& is_agenda(bounds, first, upper_of(distances[first as int]), agenda)
            &&& found == #[trigger] searched(bounds, distances, upper_of, first, agenda)
        };
    assert(!is_nan64(bounds[0]));
    let start = begun(first, distances, upper_of);
    assert(bounds_ascend(agenda, bounds)) by {
        assert forall|i: int, j: int| 0 <= i <= j < agenda.len() implies numeric_key64(
            bounds[#[trigger] agenda[i] as int],
        ) <= numeric_key64(bounds[#[trigger] agenda[j] as int]) by {
            if i < j {
                assert(bound_ordered(bounds, agenda[i], agenda[j]));
            }
        }
    }
    lemma_staged(agenda, bounds, distances, upper_of, start);
    assert forall|c: int| 0 <= c < distances.len() implies !is_better(
        #[trigger] distances[c],
        c as usize,
        distances[found.index as int],
        found.index,
    ) by {
        if c == first {
            assert(is_beaten(distances, start, c));
            assert(is_beaten(distances, found, c));
        } else if at_most64(bounds[c], start.upper) {
            assert(agenda.contains(c as usize));
            let j = choose|j: int| 0 <= j < agenda.len() && agenda[j] == c as usize;
            assert(is_beaten(distances, found, agenda[j] as int));
        } else {
            assert(!is_nan64(bounds[c]));
            assert(!is_nan64(upper_of(distances[first as int])));
            lemma_exceeding_is_beaten(bounds, distances, upper_of, start, c);
            assert(is_beaten(distances, start, c));
            assert(is_beaten(distances, found, c));
        }
    }
}

/// A function that always gives the same upper bound for a distance.
pub open spec fn gives_uppers<U: Fn(u32) -> u64>(upper_of: U) -> bool {
    &&& forall|distance: u32| #[trigger] call_requires(upper_of, (distance,))
    &&& forall|distance: u32, a: u64, b: u64|
        #![trigger call_ensures(upper_of, (distance,), a), call_ensures(upper_of, (distance,), b)]
        call_ensures(upper_of, (distance,), a) && call_ensures(upper_of, (distance,), b) ==> a == b
}

/// The upper bounds that the function gives.
pub open spec fn uppers_of<U: Fn(u32) -> u64>(upper_of: U) -> spec_fn(u32) -> u64 {
    |distance: u32| choose|upper: u64| call_ensures(upper_of, (distance,), upper)
}

fn upper_bound<U: Fn(u32) -> u64>(distance: u32, upper_of: &U) -> (upper: u64)
    requires
        gives_uppers(*upper_of),
    ensures
        upper == uppers_of(*upper_of)(distance),
{
    let upper: u64 = upper_of(distance);
    assert(call_ensures(*upper_of, (distance,), upper));
    upper
}

/// The best centroid of a search.
pub struct Best {
    pub distance: u32,
    pub index: usize,
    pub upper: u64,
    pub evaluations: usize,
}

impl Best {
    pub open spec fn state(self) -> SearchState {
        SearchState {
            distance: self.distance,
            index: self.index,
            upper: self.upper,
            evaluations: self.evaluations as nat,
        }
    }
}

/// Compares a group of centroids with the best.
fn evaluate_group<D: Fn(usize, usize) -> u32, U: Fn(u32) -> u64>(
    row: usize,
    rows: &Vec<usize>,
    from: usize,
    to: usize,
    nlist: usize,
    upper_of: &U,
    distance_of: &D,
    best: &mut Best,
)
    requires
        from <= to <= rows@.len(),
        old(best).evaluations + (to - from) <= usize::MAX,
        forall|j: int| 0 <= j < rows@.len() ==> #[trigger] rows@[j] < nlist,
        gives_uppers(*upper_of),
        crate::nearest::measures_row(*distance_of, row, nlist as nat),
    ensures
        final(best).state() == after_group(
            old(best).state(),
            rows@.subrange(from as int, to as int),
            crate::nearest::distances_of(*distance_of, row, nlist as nat),
            uppers_of(*upper_of),
        ),
{
    let ghost distances = crate::nearest::distances_of(*distance_of, row, nlist as nat);
    let ghost start = (best.distance, best.index);
    let mut distance: u32 = best.distance;
    let mut index: usize = best.index;
    let mut i: usize = from;
    while i < to
        invariant
            from <= i <= to <= rows@.len(),
            forall|j: int| 0 <= j < rows@.len() ==> #[trigger] rows@[j] < nlist,
            crate::nearest::measures_row(*distance_of, row, nlist as nat),
            distances == crate::nearest::distances_of(*distance_of, row, nlist as nat),
            (distance, index) == improved(
                start,
                distances,
                rows@.subrange(from as int, i as int),
            ),
        decreases to - i,
    {
        let c: usize = rows[i];
        assert(rows@[i as int] < nlist);
        let measured: u32 = measure(row, c, distance_of);
        proof {
            let more = rows@.subrange(from as int, i + 1);
            assert(more.drop_last() =~= rows@.subrange(from as int, i as int));
            assert(more.last() == c);
            assert(measured == distances[c as int]);
        }
        if float_less(measured, distance) || (!float_is_nan(measured) && !float_is_nan(distance)
            && float_key(measured) == float_key(distance) && c < index) {
            distance = measured;
            index = c;
        }
        i = i + 1;
    }
    best.distance = distance;
    best.index = index;
    best.upper = upper_bound(distance, upper_of);
    best.evaluations = best.evaluations + (to - from);
}

/// Evaluating computes at most one distance for each row.
proof fn lemma_evaluations(
    rows: Seq<usize>,
    bounds: Seq<u64>,
    distances: Seq<u32>,
    upper_of: spec_fn(u32) -> u64,
    state: SearchState,
)
    ensures
        evaluated(rows, bounds, distances, upper_of, state).evaluations <= state.evaluations
            + rows.len(),
    decreases rows.len(),
{
    if rows.len() > 0 && !less64(state.upper, bounds[rows[0] as int]) {
        let take = first_group(rows) as int;
        lemma_evaluations(
            rows.skip(take),
            bounds,
            distances,
            upper_of,
            after_group(state, rows.take(take), distances, upper_of),
        );
    }
}

/// Computes distances in the order of the bounds, a group at a time, until a
/// bound shows that nothing better can follow.
pub fn evaluate_candidates<D: Fn(usize, usize) -> u32, U: Fn(u32) -> u64>(
    row: usize,
    rows: &Vec<usize>,
    end: usize,
    bounds: &[u64],
    upper_of: &U,
    distance_of: &D,
    best: &mut Best,
)
    requires
        end <= rows@.len(),
        old(best).evaluations + end <= usize::MAX,
        forall|j: int| 0 <= j < rows@.len() ==> #[trigger] rows@[j] < bounds@.len(),
        gives_uppers(*upper_of),
        crate::nearest::measures_row(*distance_of, row, bounds@.len()),
    ensures
        final(best).state() == evaluated(
            rows@.take(end as int),
            bounds@,
            crate::nearest::distances_of(*distance_of, row, bounds@.len()),
            uppers_of(*upper_of),
            old(best).state(),
        ),
        final(best).evaluations <= old(best).evaluations + end,
{
    let ghost distances = crate::nearest::distances_of(*distance_of, row, bounds@.len());
    let ghost uppers = uppers_of(*upper_of);
    let ghost start = best.state();
    let ghost whole = evaluated(rows@.take(end as int), bounds@, distances, uppers, start);
    let nlist: usize = bounds.len();
    let mut pos: usize = 0;
    proof {
        assert(rows@.take(end as int) =~= rows@.subrange(0, end as int));
        lemma_evaluations(rows@.take(end as int), bounds@, distances, uppers, start);
    }
    while pos < end
        invariant
            pos <= end <= rows@.len(),
            nlist == bounds@.len(),
            best.evaluations + (end - pos) <= usize::MAX,
            forall|j: int| 0 <= j < rows@.len() ==> #[trigger] rows@[j] < bounds@.len(),
            gives_uppers(*upper_of),
            crate::nearest::measures_row(*distance_of, row, bounds@.len()),
            distances == crate::nearest::distances_of(*distance_of, row, bounds@.len()),
            uppers == uppers_of(*upper_of),
            whole == evaluated(
                rows@.subrange(pos as int, end as int),
                bounds@,
                distances,
                uppers,
                best.state(),
            ),
        ensures
            best.state() == whole,
        decreases end - pos,
    {
        let ghost here = rows@.subrange(pos as int, end as int);
        assert(here[0] == rows@[pos as int]);
        let next: usize = rows[pos];
        if double_less(best.upper, bounds[next]) {
            break;
        }
        let take: usize = smaller(GROUP, end - pos);
        proof {
            assert(here.take(take as int) =~= rows@.subrange(pos as int, pos + take));
            assert(here.skip(take as int) =~= rows@.subrange(pos + take, end as int));
        }
        evaluate_group(row, rows, pos, pos + take, nlist, upper_of, distance_of, best);
        pos = pos + take;
    }
}

/// The rows from `from` on whose bounds do not exceed the upper one.
fn prune(rows: &Vec<usize>, from: usize, bounds: &[u64], upper: u64) -> (rest: Vec<usize>)
    requires
        from <= rows@.len(),
        forall|j: int| 0 <= j < rows@.len() ==> #[trigger] rows@[j] < bounds@.len(),
    ensures
        rest@ == within(rows@.skip(from as int), bounds@, upper),
{
    let total: usize = rows.len();
    let mut rest: Vec<usize> = Vec::new();
    let mut i: usize = from;
    while i < total
        invariant
            from <= i <= total,
            total == rows@.len(),
            forall|j: int| 0 <= j < rows@.len() ==> #[trigger] rows@[j] < bounds@.len(),
            rest@ == within(rows@.subrange(from as int, i as int), bounds@, upper),
        decreases total - i,
    {
        let c: usize = rows[i];
        proof {
            let more = rows@.subrange(from as int, i + 1);
            assert(more.drop_last() =~= rows@.subrange(from as int, i as int));
            assert(more.last() == c);
        }
        if double_at_most(bounds[c], upper) {
            rest.push(c);
        }
        i = i + 1;
    }
    assert(rows@.subrange(from as int, total as int) =~= rows@.skip(from as int));
    rest
}

/// Searches a list in stages.
fn search_stages<D: Fn(usize, usize) -> u32, U: Fn(u32) -> u64>(
    row: usize,
    rows: &Vec<usize>,
    bounds: &[u64],
    upper_of: &U,
    distance_of: &D,
    best: &mut Best,
)
    requires
        old(best).evaluations + rows@.len() <= usize::MAX,
        forall|j: int| 0 <= j < rows@.len() ==> #[trigger] rows@[j] < bounds@.len(),
        gives_uppers(*upper_of),
        crate::nearest::measures_row(*distance_of, row, bounds@.len()),
    ensures
        final(best).state() == staged(
            rows@,
            bounds@,
            crate::nearest::distances_of(*distance_of, row, bounds@.len()),
            uppers_of(*upper_of),
            old(best).state(),
        ),
        final(best).evaluations <= old(best).evaluations + rows@.len(),
    decreases rows@.len(),
{
    let total: usize = rows.len();
    if total == 0 {
        return ;
    }
    let stage: usize = smaller(STAGE, total);
    evaluate_candidates(row, rows, stage, bounds, upper_of, distance_of, best);
    let last: usize = rows[stage - 1];
    if double_less(best.upper, bounds[last]) {
        return ;
    }
    let rest = prune(rows, stage, bounds, best.upper);
    proof {
        let tail = rows@.skip(stage as int);
        lemma_within(tail, bounds@, best.upper);
        assert forall|j: int| 0 <= j < rest@.len() implies #[trigger] rest@[j] < bounds@.len() by {
            assert(tail.contains(rest@[j]));
            let i = choose|i: int| 0 <= i < tail.len() && tail[i] == rest@[j];
            assert(rows@[i + stage] == rest@[j]);
        }
    }
    let left: usize = rest.len();
    if left > 2 * STAGE {
        assert(rest@.take(left as int) =~= rest@);
        evaluate_candidates(row, &rest, left, bounds, upper_of, distance_of, best);
    } else {
        search_stages(row, &rest, bounds, upper_of, distance_of, best);
    }
}

/// The first of the smallest bounds.
fn first_least(bounds: &[u64]) -> (first: usize)
    requires
        bounds@.len() > 0,
    ensures
        first < bounds@.len(),
        is_first_least(bounds@, first as int),
{
    let total: usize = bounds.len();
    let mut first: usize = 0;
    let mut i: usize = 1;
    while i < total
        invariant
            1 <= i <= total,
            total == bounds@.len(),
            first < i,
            is_nan64(bounds@[first as int]) ==> first == 0 && forall|j: int|
                0 <= j < i ==> is_nan64(#[trigger] bounds@[j]),
            !is_nan64(bounds@[first as int]) ==> {
                &&& forall|j: int|
                    0 <= j < i ==> !less64(#[trigger] bounds@[j], bounds@[first as int])
                &&& forall|j: int|
                    0 <= j < first ==> is_nan64(#[trigger] bounds@[j]) || less64(
                        bounds@[first as int],
                        bounds@[j],
                    )
            },
        decreases total - i,
    {
        if double_less(bounds[i], bounds[first]) || (double_is_nan(bounds[first])
            && !double_is_nan(bounds[i])) {
            first = i;
        }
        i = i + 1;
    }
    first
}

/// The candidates of the agenda with their sort keys, among the first ones.
spec fn agenda_pairs(bounds: Seq<u64>, first: usize, upper: u64, upto: nat) -> Seq<(i64, usize)>
    decreases upto,
{
    if upto == 0 {
        Seq::empty()
    } else {
        let c = upto - 1;
        let before = agenda_pairs(bounds, first, upper, c as nat);
        if c != first && at_most64(bounds[c], upper) {
            before.push((total_key64(bounds[c]) as i64, c as usize))
        } else {
            before
        }
    }
}

proof fn lemma_agenda_pairs(bounds: Seq<u64>, first: usize, upper: u64, upto: nat)
    requires
        upto <= bounds.len() <= usize::MAX,
    ensures
        agenda_pairs(bounds, first, upper, upto).no_duplicates(),
        forall|j: int|
            0 <= j < agenda_pairs(bounds, first, upper, upto).len() ==> {
                let pair = #[trigger] agenda_pairs(bounds, first, upper, upto)[j];
                &&& pair.1 < upto
                &&& pair.1 != first
                &&& at_most64(bounds[pair.1 as int], upper)
                &&& pair.0 == total_key64(bounds[pair.1 as int])
            },
        forall|c: int|
            0 <= c < upto && c != first && at_most64(#[trigger] bounds[c], upper) ==> agenda_pairs(
                bounds,
                first,
                upper,
                upto,
            ).contains((total_key64(bounds[c]) as i64, c as usize)),
    decreases upto,
{
    if upto > 0 {
        let m = (upto - 1) as nat;
        lemma_agenda_pairs(bounds, first, upper, m);
        let before = agenda_pairs(bounds, first, upper, m);
        let now = agenda_pairs(bounds, first, upper, upto);
        assert forall|c: int|
            0 <= c < upto && c != first && at_most64(#[trigger] bounds[c], upper) implies
            now.contains((total_key64(bounds[c]) as i64, c as usize)) by {
            let pair = (total_key64(bounds[c]) as i64, c as usize);
            if c == m {
                assert(now[before.len() as int] == pair);
            } else {
                assert(before.contains(pair));
                let j = choose|j: int| 0 <= j < before.len() && before[j] == pair;
                assert(now[j] == pair);
            }
        }
    }
}

/// The other centroids that the bounds do not exclude, in their order.
fn build_agenda(bounds: &[u64], first: usize, upper: u64) -> (agenda: Vec<usize>)
    requires
        first < bounds@.len(),
    ensures
        is_agenda(bounds@, first, upper, agenda@),
        agenda@.len() < bounds@.len(),
{
    let total: usize = bounds.len();
    let mut pairs: Vec<(i64, usize)> = Vec::new();
    let mut c: usize = 0;
    while c < total
        invariant
            c <= total,
            total == bounds@.len(),
            pairs@ == agenda_pairs(bounds@, first, upper, c as nat),
            pairs@.len() + (if first < c {
                1int
            } else {
                0
            }) <= c,
        decreases total - c,
    {
        if c != first && double_at_most(bounds[c], upper) {
            pairs.push((double_total_key(bounds[c]), c));
        }
        c = c + 1;
    }
    let sorted = sort_pairs(pairs.as_slice());
    let mut agenda: Vec<usize> = Vec::new();
    let count: usize = sorted.len();
    let mut i: usize = 0;
    while i < count
        invariant
            i <= count,
            count == sorted@.len(),
            agenda@ == Seq::new(i as nat, |j: int| sorted@[j].1),
        decreases count - i,
    {
        agenda.push(sorted[i].1);
        assert(agenda@ =~= Seq::new((i + 1) as nat, |j: int| sorted@[j].1));
        i = i + 1;
    }
    proof {
        lemma_agenda_pairs(bounds@, first, upper, total as nat);
        lemma_sorted_agenda(bounds@, first, upper, pairs@, sorted@, agenda@);
    }
    agenda
}

proof fn lemma_sorted_agenda(
    bounds: Seq<u64>,
    first: usize,
    upper: u64,
    pairs: Seq<(i64, usize)>,
    sorted: Seq<(i64, usize)>,
    agenda: Seq<usize>,
)
    requires
        bounds.len() <= usize::MAX,
        pairs == agenda_pairs(bounds, first, upper, bounds.len()),
        crate::order::pairs_sorted(sorted),
        sorted.to_multiset() == pairs.to_multiset(),
        agenda == Seq::new(sorted.len(), |j: int| sorted[j].1),
    ensures
        is_agenda(bounds, first, upper, agenda),
{
    lemma_agenda_pairs(bounds, first, upper, bounds.len());
    sorted.to_multiset_ensures();
    pairs.to_multiset_ensures();
    pairs.lemma_multiset_has_no_duplicates();
    assert(sorted.no_duplicates()) by {
        assert forall|x: (i64, usize)| sorted.to_multiset().contains(x) implies
            sorted.to_multiset().count(x) == 1 by {}
        sorted.lemma_multiset_has_no_duplicates_conv();
    }
    assert forall|j: int| 0 <= j < sorted.len() implies ({
        let pair = #[trigger] sorted[j];
        &&& pair.1 < bounds.len()
        &&& pair.1 != first
        &&& at_most64(bounds[pair.1 as int], upper)
        &&& pair.0 == total_key64(bounds[pair.1 as int])
    }) by {
        assert(sorted.contains(sorted[j]));
        assert(pairs.to_multiset().count(sorted[j]) > 0);
        assert(pairs.contains(sorted[j]));
        let i = choose|i: int| 0 <= i < pairs.len() && pairs[i] == sorted[j];
        let _ = pairs[i];
    }
    assert forall|i: int, j: int| 0 <= i < j < agenda.len() implies bound_ordered(
        bounds,
        #[trigger] agenda[i],
        #[trigger] agenda[j],
    ) by {
        assert(sorted[i] != sorted[j]);
        assert(!crate::order::pair_before(sorted[j], sorted[i]));
    }
    assert forall|c: int|
        0 <= c < bounds.len() && c != first && at_most64(#[trigger] bounds[c], upper) implies
        agenda.contains(c as usize) by {
        let pair = (total_key64(bounds[c]) as i64, c as usize);
        assert(pairs.contains(pair));
        assert(sorted.to_multiset().count(pair) > 0);
        assert(sorted.contains(pair));
        let j = choose|j: int| 0 <= j < sorted.len() && sorted[j] == pair;
        assert(agenda[j] == c as usize);
    }
}

/// The nearest centroid of a row, by branch and bound.
pub fn search_row<D: Fn(usize, usize) -> u32, U: Fn(u32) -> u64>(
    row: usize,
    bounds: &[u64],
    upper_of: &U,
    distance_of: &D,
) -> (best: Best)
    requires
        bounds@.len() > 0,
        gives_uppers(*upper_of),
        crate::nearest::measures_row(*distance_of, row, bounds@.len()),
    ensures
        is_search(
            bounds@,
            crate::nearest::distances_of(*distance_of, row, bounds@.len()),
            uppers_of(*upper_of),
            best.state(),
        ),
        1 <= best.evaluations <= bounds@.len(),
{
    let nlist: usize = bounds.len();
    let ghost distances = crate::nearest::distances_of(*distance_of, row, nlist as nat);
    let first: usize = first_least(bounds);
    let distance: u32 = measure(row, first, distance_of);
    let upper: u64 = upper_bound(distance, upper_of);
    let agenda = build_agenda(bounds, first, upper);
    let mut best = Best { distance, index: first, upper, evaluations: 1 };
    proof {
        assert(best.state() =~= begun(first, distances, uppers_of(*upper_of)));
        lemma_staged_counts(agenda@, bounds@, distances, uppers_of(*upper_of), best.state());
    }
    search_stages(row, &agenda, bounds, upper_of, distance_of, &mut best);
    proof {
        assert(best.state() == searched(
            bounds@,
            distances,
            uppers_of(*upper_of),
            first,
            agenda@,
        ));
    }
    best
}

/// A search never gives evaluations back.
proof fn lemma_staged_counts(
    rows: Seq<usize>,
    bounds: Seq<u64>,
    distances: Seq<u32>,
    upper_of: spec_fn(u32) -> u64,
    state: SearchState,
)
    ensures
        staged(rows, bounds, distances, upper_of, state).evaluations >= state.evaluations,
    decreases rows.len(),
{
    if rows.len() > 0 {
        let stage = first_stage(rows) as int;
        let next = evaluated(rows.take(stage), bounds, distances, upper_of, state);
        lemma_evaluated_counts(rows.take(stage), bounds, distances, upper_of, state);
        if !less64(next.upper, bounds[rows[stage - 1] as int]) {
            let rest = within(rows.skip(stage), bounds, next.upper);
            lemma_within(rows.skip(stage), bounds, next.upper);
            if rest.len() > 2 * STAGE {
                lemma_evaluated_counts(rest, bounds, distances, upper_of, next);
            } else {
                lemma_staged_counts(rest, bounds, distances, upper_of, next);
            }
        }
    }
}

proof fn lemma_evaluated_counts(
    rows: Seq<usize>,
    bounds: Seq<u64>,
    distances: Seq<u32>,
    upper_of: spec_fn(u32) -> u64,
    state: SearchState,
)
    ensures
        evaluated(rows, bounds, distances, upper_of, state).evaluations >= state.evaluations,
    decreases rows.len(),
{
    if rows.len() > 0 && !less64(state.upper, bounds[rows[0] as int]) {
        let take = first_group(rows) as int;
        lemma_evaluated_counts(
            rows.skip(take),
            bounds,
            distances,
            upper_of,
            after_group(state, rows.take(take), distances, upper_of),
        );
    }
}

/// The bounds of a row, as a call gave them.
pub open spec fn gives_bounds<B: Fn(usize) -> Vec<u64>>(bounds_of: B, n: nat, nlist: nat) -> bool {
    &&& forall|row: usize| row < n ==> #[trigger] call_requires(bounds_of, (row,))
    &&& forall|row: usize, bounds: Vec<u64>| #[trigger]
        call_ensures(bounds_of, (row,), bounds) ==> bounds@.len() == nlist
}

/// A row was assigned by a search that computed so many distances.
pub open spec fn row_searched<
    B: Fn(usize) -> Vec<u64>,
    D: Fn(usize, usize) -> u32,
    U: Fn(u32) -> u64,
>(
    bounds_of: B,
    distance_of: D,
    upper_of: U,
    row: usize,
    nlist: nat,
    assigned: usize,
    evaluations: nat,
) -> bool {
    exists|bounds: Vec<u64>, found: SearchState|
        {
            &&& #[trigger] call_ensures(bounds_of, (row,), bounds)
            &&& #[trigger] is_search(
                bounds@,
                crate::nearest::distances_of(distance_of, row, nlist),
                uppers_of(upper_of),
                found,
            )
            &&& found.index == assigned
            &&& found.evaluations == evaluations
        }
}

/// Whatever bounds the function gives for a row are sound.
pub open spec fn row_is_sound<
    B: Fn(usize) -> Vec<u64>,
    D: Fn(usize, usize) -> u32,
    U: Fn(u32) -> u64,
>(bounds_of: B, distance_of: D, upper_of: U, row: usize, nlist: nat) -> bool {
    forall|bounds: Vec<u64>| #[trigger]
        call_ensures(bounds_of, (row,), bounds) ==> bounds_are_sound(
            bounds@,
            crate::nearest::distances_of(distance_of, row, nlist),
            uppers_of(upper_of),
        )
}

/// All the distances that were computed for some rows.
pub open spec fn total_evaluations(counts: Seq<nat>) -> nat
    decreases counts.len(),
{
    if counts.len() == 0 {
        0
    } else {
        total_evaluations(counts.drop_last()) + counts.last()
    }
}

/// The nearest centroid of every row, and how many distances were computed: at
/// least one for each row, and at most one for each row and centroid. A row
/// whose bounds are sound gets the centroid that an exhaustive search gives it.
pub fn assign_with_stats<
    B: Fn(usize) -> Vec<u64>,
    D: Fn(usize, usize) -> u32,
    U: Fn(u32) -> u64,
>(n: usize, nlist: usize, bounds_of: &B, upper_of: &U, distance_of: &D) -> (out: (
    Vec<usize>,
    usize,
))
    requires
        nlist > 0,
        n * nlist <= usize::MAX,
        gives_bounds(*bounds_of, n as nat, nlist as nat),
        gives_uppers(*upper_of),
        forall|row: usize|
            row < n ==> #[trigger] crate::nearest::measures_row(*distance_of, row, nlist as nat),
    ensures
        out.0@.len() == n,
        n <= out.1 <= n * nlist,
        exists|counts: Seq<nat>|
            {
                &&& counts.len() == n
                &&& out.1 == #[trigger] total_evaluations(counts)
                &&& forall|i: int|
                    0 <= i < n ==> row_searched(
                        *bounds_of,
                        *distance_of,
                        *upper_of,
                        i as usize,
                        nlist as nat,
                        #[trigger] out.0@[i],
                        counts[i],
                    )
            },
        forall|i: int|
            0 <= i < n && row_is_sound(
                *bounds_of,
                *distance_of,
                *upper_of,
                i as usize,
                nlist as nat,
            ) ==> is_nearest_index(
                crate::nearest::distances_of(*distance_of, i as usize, nlist as nat),
                #[trigger] out.0@[i] as int,
            ),
{
    let mut assigned: Vec<usize> = Vec::new();
    let mut total: usize = 0;
    let ghost mut counts: Seq<nat> = Seq::empty();
    let mut row: usize = 0;
    while row < n
        invariant
            row <= n,
            nlist > 0,
            n * nlist <= usize::MAX,
            gives_bounds(*bounds_of, n as nat, nlist as nat),
            gives_uppers(*upper_of),
            forall|row: usize|
                row < n ==> #[trigger] crate::nearest::measures_row(
                    *distance_of,
                    row,
                    nlist as nat,
                ),
            assigned@.len() == row,
            counts.len() == row,
            total == total_evaluations(counts),
            row <= total <= row * nlist,
            forall|i: int|
                0 <= i < row ==> row_searched(
                    *bounds_of,
                    *distance_of,
                    *upper_of,
                    i as usize,
                    nlist as nat,
                    #[trigger] assigned@[i],
                    counts[i],
                ),
            forall|i: int|
                0 <= i < row && row_is_sound(
                    *bounds_of,
                    *distance_of,
                    *upper_of,
                    i as usize,
                    nlist as nat,
                ) ==> is_nearest_index(
                    crate::nearest::distances_of(*distance_of, i as usize, nlist as nat),
                    #[trigger] assigned@[i] as int,
                ),
        decreases n - row,
    {
        let bounds: Vec<u64> = bounds_of(row);
        let best: Best = search_row(row, bounds.as_slice(), upper_of, distance_of);
        proof {
            assert((row + 1) * nlist == row * nlist + nlist) by (nonlinear_arith);
            assert((row + 1) * nlist <= n * nlist) by (nonlinear_arith)
                requires
                    row + 1 <= n,
            ;
            assert(is_search(
                bounds@,
                crate::nearest::distances_of(*distance_of, row, nlist as nat),
                uppers_of(*upper_of),
                best.state(),
            ));
            let more = counts.push(best.evaluations as nat);
            assert(more.drop_last() =~= counts);
            assert(row_searched(
                *bounds_of,
                *distance_of,
                *upper_of,
                row,
                nlist as nat,
                best.index,
                best.evaluations as nat,
            ));
            counts = more;
            if row_is_sound(*bounds_of, *distance_of, *upper_of, row, nlist as nat) {
                law_search_finds_the_nearest(
                    bounds@,
                    crate::nearest::distances_of(*distance_of, row, nlist as nat),
                    uppers_of(*upper_of),
                    best.state(),
                );
            }
        }
        total = total + best.evaluations;
        assigned.push(best.index);
        row = row + 1;
    }
    (assigned, total)
}

} // verus!
