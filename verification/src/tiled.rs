//! Nearest centroids where approximate distances come tile by tile.
use crate::certified::clamp;
use crate::nearest::{find_topk_with_workers, measure, BoundedTopK, Candidate};
use crate::order::{float_is_nan, float_key, INFINITE_DISTANCE};
use crate::pq::are_finite;
use vstd::prelude::*;

verus! {

/// What a row has seen: the approximately nearest, the nearest of those
/// measured, and whether all approximations were finite.
#[verifier::ext_equal]
pub struct TileState {
    pub near: Seq<Candidate>,
    pub exact: Seq<Candidate>,
    pub valid: bool,
}

/// The approximate candidates of a tile that begins at centroid `start`.
pub open spec fn tile_near(approximations: Seq<u32>, start: int) -> Seq<Candidate> {
    Seq::new(
        approximations.len(),
        |i: int| (crate::certified::clamped(approximations[i]), (start + i) as usize),
    )
}

/// Above this distance a centroid cannot be among the nearest: the upper edge
/// of the band around the last of the approximately nearest.
pub open spec fn tile_upper(
    near: Seq<Candidate>,
    nprobe: nat,
    band: spec_fn(u32) -> (u32, u32),
) -> u32 {
    if near.len() < nprobe {
        INFINITE_DISTANCE
    } else {
        band(near.last().0).1
    }
}

/// The candidates of the first `count` centroids of a tile that are not above
/// the given distance.
pub open spec fn tile_exact(
    distances: Seq<u32>,
    approximations: Seq<u32>,
    start: int,
    upper: u32,
    count: nat,
) -> Seq<Candidate>
    decreases count,
{
    if count == 0 {
        Seq::empty()
    } else {
        let i = count - 1;
        let before = tile_exact(distances, approximations, start, upper, i as nat);
        if crate::certified::at_most(crate::certified::clamped(approximations[i]), upper) {
            before.push((distances[start + i], (start + i) as usize))
        } else {
            before
        }
    }
}

/// The state after one more tile.
pub open spec fn tile_step(
    state: TileState,
    distances: Seq<u32>,
    approximations: Seq<u32>,
    start: int,
    band: spec_fn(u32) -> (u32, u32),
    nprobe: nat,
) -> TileState {
    if !state.valid || !crate::pq::all_finite(approximations) {
        TileState { near: state.near, exact: state.exact, valid: false }
    } else {
        let near = crate::nearest::admitted_all(
            state.near,
            nprobe,
            tile_near(approximations, start),
        );
        let upper = tile_upper(near, nprobe, band);
        let exact = crate::nearest::admitted_all(
            state.exact,
            nprobe,
            tile_exact(distances, approximations, start, upper, approximations.len()),
        );
        TileState { near, exact, valid: true }
    }
}

/// Before the first tile.
pub open spec fn no_tiles() -> TileState {
    TileState { near: Seq::empty(), exact: Seq::empty(), valid: true }
}

/// The end of the tile that begins at `start`.
pub open spec fn tile_end(start: int, cols: int, k: int) -> int {
    if start + cols <= k {
        start + cols
    } else {
        k
    }
}

/// The state after the first `tiles` tiles of a row.
pub open spec fn tiles_state(
    approximations: Seq<u32>,
    distances: Seq<u32>,
    cols: int,
    band: spec_fn(u32) -> (u32, u32),
    nprobe: nat,
    tiles: nat,
) -> TileState
    decreases tiles,
{
    if tiles == 0 {
        no_tiles()
    } else {
        let t = (tiles - 1) as nat;
        let start = t * cols;
        tile_step(
            tiles_state(approximations, distances, cols, band, nprobe, t),
            distances,
            approximations.subrange(start, tile_end(start, cols, approximations.len() as int)),
            start,
            band,
            nprobe,
        )
    }
}

/// The answer for a row: the nearest of those measured, or of all where an
/// approximation was not finite or too few were seen.
pub open spec fn settled(state: TileState, distances: Seq<u32>, nprobe: nat) -> Seq<Candidate> {
    if !state.valid || state.near.len() < nprobe || state.exact.len() < nprobe {
        crate::nearest::nearest(distances, nprobe)
    } else {
        state.exact
    }
}

/// Every band is wide enough.
pub open spec fn separates_everywhere(
    approximations: Seq<u32>,
    distances: Seq<u32>,
    band: spec_fn(u32) -> (u32, u32),
) -> bool {
    forall|middle: u32|
        middle < INFINITE_DISTANCE ==> crate::certified::separates(
            approximations,
            distances,
            middle,
            #[trigger] band(middle),
        )
}

/// The candidates of the first centroids.
spec fn seen(distances: Seq<u32>, end: int) -> Set<Candidate> {
    crate::nearest::all_candidates(distances).take(end).to_set()
}

proof fn lemma_seen(distances: Seq<u32>, end: int, x: Candidate)
    requires
        0 <= end <= distances.len() <= usize::MAX,
    ensures
        seen(distances, end).contains(x) == (x.1 < end && x.0 == distances[x.1 as int]),
{
    let all = crate::nearest::all_candidates(distances).take(end);
    if x.1 < end && x.0 == distances[x.1 as int] {
        assert(all[x.1 as int] == x);
    }
    if all.contains(x) {
        let i = choose|i: int| 0 <= i < all.len() && all[i] == x;
    }
}

/// The measured candidates of a tile are distinct and are those not above.
proof fn lemma_tile_exact(
    distances: Seq<u32>,
    approximations: Seq<u32>,
    start: int,
    upper: u32,
    count: nat,
)
    requires
        0 <= start,
        count <= approximations.len(),
        start + count <= distances.len() <= usize::MAX,
    ensures
        ({
            let items = tile_exact(distances, approximations, start, upper, count);
            &&& items.no_duplicates()
            &&& forall|j: int|
                0 <= j < items.len() ==> {
                    let x = #[trigger] items[j];
                    &&& start <= x.1 < start + count
                    &&& x.0 == distances[x.1 as int]
                }
            &&& forall|i: int|
                0 <= i < count && crate::certified::at_most(
                    crate::certified::clamped(#[trigger] approximations[i]),
                    upper,
                ) ==> items.contains((distances[start + i], (start + i) as usize))
        }),
    decreases count,
{
    if count > 0 {
        let m = (count - 1) as nat;
        lemma_tile_exact(distances, approximations, start, upper, m);
        let before = tile_exact(distances, approximations, start, upper, m);
        let items = tile_exact(distances, approximations, start, upper, count);
        assert forall|i: int|
            0 <= i < count && crate::certified::at_most(
                crate::certified::clamped(#[trigger] approximations[i]),
                upper,
            ) implies items.contains((distances[start + i], (start + i) as usize)) by {
            let x = (distances[start + i], (start + i) as usize);
            if i == m {
                assert(items[before.len() as int] == x);
            } else {
                assert(before.contains(x));
                let j = choose|j: int| 0 <= j < before.len() && before[j] == x;
                assert(items[j] == x);
            }
        }
    }
}

/// A tile keeps both selections exact.
#[verifier::spinoff_prover]
#[verifier::rlimit(40)]
proof fn lemma_tile_step(
    approximations: Seq<u32>,
    distances: Seq<u32>,
    start: int,
    end: int,
    band: spec_fn(u32) -> (u32, u32),
    nprobe: nat,
    state: TileState,
)
    requires
        0 < nprobe,
        approximations.len() == distances.len() <= usize::MAX,
        0 <= start <= end <= distances.len(),
        separates_everywhere(approximations, distances, band),
        state.valid,
        crate::pq::all_finite(approximations.subrange(start, end)),
        crate::nearest::is_selection(
            seen(crate::certified::approximate(approximations), start),
            nprobe,
            state.near,
        ),
        crate::nearest::is_selection(seen(distances, start), nprobe, state.exact),
        forall|i: int|
            0 <= i < start ==> crate::order::magnitude(#[trigger] approximations[i]) < 0x7F80_0000,
    ensures
        ({
            let after = tile_step(
                state,
                distances,
                approximations.subrange(start, end),
                start,
                band,
                nprobe,
            );
            &&& crate::nearest::is_selection(
                seen(crate::certified::approximate(approximations), end),
                nprobe,
                after.near,
            )
            &&& crate::nearest::is_selection(seen(distances, end), nprobe, after.exact)
        }),
{
    let tile = approximations.subrange(start, end);
    let whole = crate::certified::approximate(approximations);
    let more = tile_near(tile, start);
    let near = crate::nearest::admitted_all(state.near, nprobe, more);
    assert forall|i: int| start <= i < end implies crate::order::magnitude(
        #[trigger] approximations[i],
    ) < 0x7F80_0000 by {
        assert(tile[i - start] == approximations[i]);
    }
    assert forall|i: int| 0 <= i < more.len() implies !seen(whole, start).contains(
        #[trigger] more[i],
    ) by {
        lemma_seen(whole, start, more[i]);
    }
    crate::nearest::lemma_admitting_all(seen(whole, start), nprobe, state.near, more);
    assert(seen(whole, start).union(more.to_set()) =~= seen(whole, end)) by {
        assert forall|x: Candidate|
            seen(whole, start).union(more.to_set()).contains(x) == seen(whole, end).contains(x) by {
            lemma_seen(whole, start, x);
            lemma_seen(whole, end, x);
            if start <= x.1 < end && x.0 == whole[x.1 as int] {
                assert(more[x.1 - start] == x);
            }
            if more.contains(x) {
                let i = choose|i: int| 0 <= i < more.len() && more[i] == x;
            }
        }
    }
    let upper = tile_upper(near, nprobe, band);
    let open = tile_exact(distances, tile, start, upper, tile.len());
    lemma_tile_exact(distances, tile, start, upper, tile.len());
    assert forall|i: int| 0 <= i < open.len() implies !seen(distances, start).contains(
        #[trigger] open[i],
    ) by {
        lemma_seen(distances, start, open[i]);
    }
    crate::nearest::lemma_admitting_all(seen(distances, start), nprobe, state.exact, open);
    let exact = crate::nearest::admitted_all(state.exact, nprobe, open);
    let offered = seen(distances, start).union(open.to_set());
    assert(offered.subset_of(seen(distances, end))) by {
        assert forall|x: Candidate| offered.contains(x) implies seen(distances, end).contains(x) by {
            lemma_seen(distances, start, x);
            lemma_seen(distances, end, x);
            if open.contains(x) {
                let i = choose|i: int| 0 <= i < open.len() && open[i] == x;
            }
        }
    }
    assert forall|x: Candidate| #[trigger] seen(distances, end).contains(x) && !offered.contains(
        x,
    ) implies exact.len() == nprobe && crate::nearest::all_before(exact, x) by {
        lemma_seen(distances, end, x);
        lemma_seen(distances, start, x);
        let c = x.1 as int;
        lemma_excluded(approximations, distances, start, end, band, nprobe, near, exact, c);
    }
    crate::nearest::lemma_selection_grows(offered, seen(distances, end), nprobe, exact);
}

/// A centroid of the tile that is not measured comes after all that are held.
proof fn lemma_excluded(
    approximations: Seq<u32>,
    distances: Seq<u32>,
    start: int,
    end: int,
    band: spec_fn(u32) -> (u32, u32),
    nprobe: nat,
    near: Seq<Candidate>,
    exact: Seq<Candidate>,
    c: int,
)
    requires
        0 < nprobe,
        approximations.len() == distances.len() <= usize::MAX,
        0 <= start <= c < end <= distances.len(),
        separates_everywhere(approximations, distances, band),
        forall|i: int|
            0 <= i < end ==> crate::order::magnitude(#[trigger] approximations[i]) < 0x7F80_0000,
        crate::nearest::is_selection(
            seen(crate::certified::approximate(approximations), end),
            nprobe,
            near,
        ),
        ({
            let tile = approximations.subrange(start, end);
            let open = tile_exact(
                distances,
                tile,
                start,
                tile_upper(near, nprobe, band),
                tile.len(),
            );
            &&& crate::nearest::is_selection(
                seen(distances, start).union(open.to_set()),
                nprobe,
                exact,
            )
            &&& !open.contains((distances[c], c as usize))
        }),
    ensures
        exact.len() == nprobe,
        crate::nearest::all_before(exact, (distances[c], c as usize)),
{
    let whole = crate::certified::approximate(approximations);
    let tile = approximations.subrange(start, end);
    let upper = tile_upper(near, nprobe, band);
    let open = tile_exact(distances, tile, start, upper, tile.len());
    let offered = seen(distances, start).union(open.to_set());
    let x = (distances[c], c as usize);
    lemma_tile_exact(distances, tile, start, upper, tile.len());
    assert(tile[c - start] == approximations[c]);
    assert(!crate::certified::at_most(crate::certified::clamped(approximations[c]), upper));
    assert(near.len() == nprobe);
    let middle = near.last().0;
    assert(near.last() == near[nprobe - 1]);
    assert forall|j: int| 0 <= j < near.len() implies (#[trigger] near[j]).1 < end && near[j].0
        == crate::certified::clamped(approximations[near[j].1 as int]) && near[j].0 <= middle by {
        assert(seen(whole, end).contains(near[j]));
        lemma_seen(whole, end, near[j]);
        assert(seen(whole, end).contains(near[nprobe - 1]));
        lemma_seen(whole, end, near[nprobe - 1]);
        if j < nprobe - 1 {
            assert(crate::nearest::candidate_before(near[j], near[nprobe - 1]));
        }
    }
    assert(near[nprobe - 1].0 < INFINITE_DISTANCE);
    assert(crate::certified::separates(approximations, distances, middle, band(middle)));
    crate::nearest::lemma_ascending_is_distinct(near);
    let nearer = Seq::new(nprobe, |j: int| (distances[near[j].1 as int], near[j].1));
    assert(nearer.no_duplicates()) by {
        assert forall|i: int, j: int| 0 <= i < nprobe && 0 <= j < nprobe && i != j implies nearer[i]
            != nearer[j] by {
            assert(near[i] != near[j]);
        }
    }
    assert forall|j: int| 0 <= j < nearer.len() implies offered.contains(#[trigger] nearer[j])
        && crate::nearest::candidate_before(nearer[j], x) by {
        let i = near[j].1 as int;
        lemma_seen(distances, start, nearer[j]);
        if i >= start {
            assert(tile[i - start] == approximations[i]);
            assert(crate::certified::at_most(crate::certified::clamped(tile[i - start]), upper));
            assert(open.contains((distances[i], i as usize)));
        }
        assert(crate::certified::at_most(
            crate::certified::clamped(approximations[i]),
            middle,
        ));
        assert(crate::order::less(upper, crate::certified::clamped(approximations[c])));
        assert(crate::nearest::candidate_before(
            (distances[i], i as usize),
            (distances[c], c as usize),
        ));
    }
    crate::nearest::lemma_full_selection(offered, nprobe, exact, nearer, x);
}

/// Where the bands are wide enough, the tiles seen so far keep exactly the
/// nearest of the centroids seen so far.
proof fn lemma_tiles_keep_the_nearest(
    approximations: Seq<u32>,
    distances: Seq<u32>,
    cols: int,
    band: spec_fn(u32) -> (u32, u32),
    nprobe: nat,
    tiles: nat,
)
    requires
        0 < nprobe,
        0 < cols,
        approximations.len() == distances.len() <= usize::MAX,
        tiles > 0 ==> (tiles - 1) * cols < distances.len(),
        separates_everywhere(approximations, distances, band),
        tiles_state(approximations, distances, cols, band, nprobe, tiles).valid,
    ensures
        ({
            let state = tiles_state(approximations, distances, cols, band, nprobe, tiles);
            let end = if tiles == 0 {
                0
            } else {
                tile_end((tiles - 1) * cols, cols, distances.len() as int)
            };
            &&& crate::nearest::is_selection(
                seen(crate::certified::approximate(approximations), end),
                nprobe,
                state.near,
            )
            &&& crate::nearest::is_selection(seen(distances, end), nprobe, state.exact)
            &&& forall|i: int|
                0 <= i < end ==> crate::order::magnitude(#[trigger] approximations[i])
                    < 0x7F80_0000
        }),
    decreases tiles,
{
    let whole = crate::certified::approximate(approximations);
    if tiles == 0 {
        assert(seen(whole, 0) =~= Set::empty()) by {
            assert(crate::nearest::all_candidates(whole).take(0) =~= Seq::empty());
        }
        assert(seen(distances, 0) =~= Set::empty()) by {
            assert(crate::nearest::all_candidates(distances).take(0) =~= Seq::empty());
        }
    } else {
        let t = (tiles - 1) as nat;
        let start = t * cols;
        let end = tile_end(start, cols, distances.len() as int);
        assert(start >= 0) by (nonlinear_arith)
            requires
                start == t * cols,
                t >= 0,
                cols > 0,
        ;
        if t > 0 {
            assert((t - 1) * cols + cols == start) by (nonlinear_arith)
                requires
                    start == t * cols,
            ;
        }
        lemma_tiles_keep_the_nearest(approximations, distances, cols, band, nprobe, t);
        let state = tiles_state(approximations, distances, cols, band, nprobe, t);
        let tile = approximations.subrange(start, end);
        lemma_tile_step(approximations, distances, start, end, band, nprobe, state);
        assert forall|i: int| 0 <= i < end implies crate::order::magnitude(
            #[trigger] approximations[i],
        ) < 0x7F80_0000 by {
            if i >= start {
                assert(tile[i - start] == approximations[i]);
            }
        }
    }
}

/// Where the bands are wide enough, the answer from tiles is the same as from
/// all exact distances.
pub proof fn law_tiled_answer_is_exact(
    approximations: Seq<u32>,
    distances: Seq<u32>,
    cols: int,
    band: spec_fn(u32) -> (u32, u32),
    nprobe: nat,
    tiles: nat,
)
    requires
        0 < nprobe,
        0 < cols,
        approximations.len() == distances.len() <= usize::MAX,
        separates_everywhere(approximations, distances, band),
        0 < tiles,
        (tiles - 1) * cols < distances.len() <= tiles * cols,
    ensures
        settled(
            tiles_state(approximations, distances, cols, band, nprobe, tiles),
            distances,
            nprobe,
        ) == crate::nearest::nearest(distances, nprobe),
{
    let state = tiles_state(approximations, distances, cols, band, nprobe, tiles);
    let all = crate::nearest::all_candidates(distances);
    if state.valid {
        lemma_tiles_keep_the_nearest(approximations, distances, cols, band, nprobe, tiles);
        assert((tiles - 1) * cols + cols == tiles * cols) by (nonlinear_arith);
        assert(all.take(distances.len() as int) =~= all);
        crate::nearest::law_nearest_selects(distances, nprobe);
        crate::nearest::law_selection_is_unique(
            all.to_set(),
            nprobe,
            state.exact,
            crate::nearest::nearest(distances, nprobe),
        );
    }
}

/// Every candidate has its centroid's distance.
pub open spec fn are_measured(distances: Seq<u32>, items: Seq<Candidate>) -> bool {
    forall|j: int|
        0 <= j < items.len() ==> (#[trigger] items[j]).1 < distances.len() && items[j].0
            == distances[items[j].1 as int]
}

proof fn lemma_placed_measured(distances: Seq<u32>, items: Seq<Candidate>, new: Candidate)
    requires
        are_measured(distances, items),
        new.1 < distances.len(),
        new.0 == distances[new.1 as int],
    ensures
        are_measured(distances, crate::nearest::placed(items, new)),
    decreases items.len(),
{
    if items.len() > 0 {
        assert(items.last() == items[items.len() - 1]);
        assert(are_measured(distances, items.drop_last()));
        lemma_placed_measured(distances, items.drop_last(), new);
    }
}

proof fn lemma_admitted_measured(
    distances: Seq<u32>,
    items: Seq<Candidate>,
    limit: nat,
    candidates: Seq<Candidate>,
)
    requires
        are_measured(distances, items),
        are_measured(distances, candidates),
    ensures
        are_measured(distances, crate::nearest::admitted_all(items, limit, candidates)),
    decreases candidates.len(),
{
    if candidates.len() > 0 {
        let last = candidates.last();
        assert(last == candidates[candidates.len() - 1]);
        assert(are_measured(distances, candidates.drop_last()));
        lemma_admitted_measured(distances, items, limit, candidates.drop_last());
        lemma_placed_measured(
            distances,
            crate::nearest::admitted_all(items, limit, candidates.drop_last()),
            last,
        );
    }
}

proof fn lemma_tiles_measured(
    approximations: Seq<u32>,
    distances: Seq<u32>,
    cols: int,
    band: spec_fn(u32) -> (u32, u32),
    nprobe: nat,
    tiles: nat,
)
    requires
        0 < cols,
        approximations.len() == distances.len() <= usize::MAX,
        tiles > 0 ==> (tiles - 1) * cols <= distances.len(),
    ensures
        are_measured(
            distances,
            tiles_state(approximations, distances, cols, band, nprobe, tiles).exact,
        ),
    decreases tiles,
{
    if tiles > 0 {
        let t = (tiles - 1) as nat;
        let start = t * cols;
        assert(0 <= start && (t > 0 ==> (t - 1) * cols <= start)) by (nonlinear_arith)
            requires
                start == t * cols,
                0 < cols,
        ;
        lemma_tiles_measured(approximations, distances, cols, band, nprobe, t);
        let state = tiles_state(approximations, distances, cols, band, nprobe, t);
        let tile = approximations.subrange(
            start,
            tile_end(start, cols, approximations.len() as int),
        );
        let near = crate::nearest::admitted_all(state.near, nprobe, tile_near(tile, start));
        let upper = tile_upper(near, nprobe, band);
        lemma_tile_exact(distances, tile, start, upper, tile.len());
        lemma_admitted_measured(
            distances,
            state.exact,
            nprobe,
            tile_exact(distances, tile, start, upper, tile.len()),
        );
    }
}

/// Whatever the bands, the answer from tiles gives every centroid its exact
/// distance, and where it was not settled by the tiles it is the one from all
/// exact distances.
pub proof fn law_tiled_answers_are_measured(
    approximations: Seq<u32>,
    distances: Seq<u32>,
    cols: int,
    band: spec_fn(u32) -> (u32, u32),
    nprobe: nat,
    tiles: nat,
)
    requires
        0 < cols,
        approximations.len() == distances.len() <= usize::MAX,
        tiles > 0 ==> (tiles - 1) * cols <= distances.len(),
    ensures
        ({
            let state = tiles_state(approximations, distances, cols, band, nprobe, tiles);
            let answer = settled(state, distances, nprobe);
            &&& are_measured(distances, answer)
            &&& !state.valid || state.near.len() < nprobe || state.exact.len() < nprobe ==> answer
                == crate::nearest::nearest(distances, nprobe)
        }),
{
    lemma_tiles_measured(approximations, distances, cols, band, nprobe, tiles);
    let all = crate::nearest::all_candidates(distances);
    assert(are_measured(distances, all)) by {
        assert forall|j: int| 0 <= j < all.len() implies (#[trigger] all[j]).1 < distances.len()
            && all[j].0 == distances[all[j].1 as int] by {}
    }
    lemma_admitted_measured(distances, Seq::empty(), nprobe, all);
}

/// The search of one row through the tiles.
pub struct TiledRow {
    nprobe: usize,
    near: BoundedTopK,
    exact: BoundedTopK,
    valid: bool,
}

impl TiledRow {
    /// What changes from tile to tile. The number of probes stays as it was
    /// given.
    pub closed spec fn progress(self) -> TileState {
        TileState { near: self.near.held(), exact: self.exact.held(), valid: self.valid }
    }

    pub closed spec fn probes(self) -> nat {
        self.nprobe as nat
    }

    pub closed spec fn well_formed(self) -> bool {
        &&& self.near.well_formed()
        &&& self.exact.well_formed()
        &&& self.near.room() == self.nprobe
        &&& self.exact.room() == self.nprobe
    }

    pub fn new(nprobe: usize) -> (row: Self)
        ensures
            row.well_formed(),
            row.probes() == nprobe,
            row.progress() == no_tiles(),
    {
        TiledRow {
            nprobe,
            near: BoundedTopK::new(nprobe),
            exact: BoundedTopK::new(nprobe),
            valid: true,
        }
    }

    /// Offers the approximate distances of a tile.
    fn offer_tile(&mut self, start: usize, approximations: &[u32])
        requires
            old(self).well_formed(),
            start + approximations@.len() <= usize::MAX,
        ensures
            final(self).well_formed(),
            final(self).probes() == old(self).probes(),
            final(self).progress() == (TileState {
                near: crate::nearest::admitted_all(
                    old(self).progress().near,
                    old(self).probes(),
                    tile_near(approximations@, start as int),
                ),
                ..old(self).progress()
            }),
    {
        let total: usize = approximations.len();
        let ghost before = self.near.held();
        let ghost exact = self.exact;
        let ghost valid = self.valid;
        let ghost probes = self.nprobe;
        let ghost all = tile_near(approximations@, start as int);
        let mut i: usize = 0;
        proof {
            assert(all.take(0) =~= Seq::<Candidate>::empty());
        }
        while i < total
            invariant
                i <= total,
                total == approximations@.len(),
                start + total <= usize::MAX,
                self.well_formed(),
                self.exact == exact,
                self.valid == valid,
                self.nprobe == probes,
                all == tile_near(approximations@, start as int),
                self.near.held() == crate::nearest::admitted_all(
                    before,
                    probes as nat,
                    all.take(i as int),
                ),
            decreases total - i,
        {
            let distance: u32 = clamp(approximations[i]);
            self.near.push((distance, start + i));
            proof {
                assert(all.take(i + 1).drop_last() =~= all.take(i as int));
                assert(all.take(i + 1).last() == (distance, (start + i) as usize));
            }
            i = i + 1;
        }
        assert(all.take(total as int) =~= all);
    }

    /// Measures the centroids of a tile that are not above `upper`.
    fn measure_tile<D: Fn(usize, usize) -> u32>(
        &mut self,
        row: usize,
        k: usize,
        start: usize,
        approximations: &[u32],
        upper: u32,
        distance_of: &D,
    )
        requires
            old(self).well_formed(),
            start + approximations@.len() <= k,
            crate::nearest::measures_row(*distance_of, row, k as nat),
        ensures
            final(self).well_formed(),
            final(self).probes() == old(self).probes(),
            final(self).progress() == (TileState {
                exact: crate::nearest::admitted_all(
                    old(self).progress().exact,
                    old(self).probes(),
                    tile_exact(
                        crate::nearest::distances_of(*distance_of, row, k as nat),
                        approximations@,
                        start as int,
                        upper,
                        approximations@.len(),
                    ),
                ),
                ..old(self).progress()
            }),
    {
        let total: usize = approximations.len();
        let ghost before = self.exact.held();
        let ghost near = self.near;
        let ghost valid = self.valid;
        let ghost probes = self.nprobe;
        let ghost distances = crate::nearest::distances_of(*distance_of, row, k as nat);
        let mut i: usize = 0;
        while i < total
            invariant
                i <= total,
                total == approximations@.len(),
                start + total <= k,
                crate::nearest::measures_row(*distance_of, row, k as nat),
                distances == crate::nearest::distances_of(*distance_of, row, k as nat),
                self.well_formed(),
                self.near == near,
                self.valid == valid,
                self.nprobe == probes,
                self.exact.held() == crate::nearest::admitted_all(
                    before,
                    probes as nat,
                    tile_exact(distances, approximations@, start as int, upper, i as nat),
                ),
            decreases total - i,
        {
            let distance: u32 = clamp(approximations[i]);
            if !float_is_nan(distance) && !float_is_nan(upper) && float_key(distance) <= float_key(
                upper,
            ) {
                let measured: u32 = measure(row, start + i, distance_of);
                self.exact.push((measured, start + i));
                proof {
                    let items = tile_exact(
                        distances,
                        approximations@,
                        start as int,
                        upper,
                        (i + 1) as nat,
                    );
                    assert(items.drop_last() =~= tile_exact(
                        distances,
                        approximations@,
                        start as int,
                        upper,
                        i as nat,
                    ));
                    assert(items.last() == (measured, (start + i) as usize));
                }
            }
            i = i + 1;
        }
    }

    /// Takes in a tile: its approximate distances first, and then the exact
    /// distances of those centroids that may still be among the nearest.
    pub fn scan_tile<B: Fn(usize, u32) -> (u32, u32), D: Fn(usize, usize) -> u32>(
        &mut self,
        row: usize,
        k: usize,
        start: usize,
        approximations: &[u32],
        band_of: &B,
        distance_of: &D,
    )
        requires
            old(self).well_formed(),
            old(self).probes() > 0,
            start + approximations@.len() <= k,
            crate::certified::bands_row(*band_of, row),
            crate::nearest::measures_row(*distance_of, row, k as nat),
        ensures
            final(self).well_formed(),
            final(self).probes() == old(self).probes(),
            final(self).progress() == tile_step(
                old(self).progress(),
                crate::nearest::distances_of(*distance_of, row, k as nat),
                approximations@,
                start as int,
                crate::certified::bands_of(*band_of, row),
                old(self).probes(),
            ),
    {
        if !self.valid {
            return ;
        }
        if !are_finite(approximations) {
            self.valid = false;
            return ;
        }
        self.offer_tile(start, approximations);
        let upper: u32 = if self.near.len() < self.nprobe {
            INFINITE_DISTANCE
        } else {
            match self.near.worst() {
                Some(worst) => crate::certified::band(row, worst.0, band_of).1,
                None => INFINITE_DISTANCE,
            }
        };
        self.measure_tile(row, k, start, approximations, upper, distance_of);
    }

    /// The nearest centroids of the row.
    pub fn settle<D: Fn(usize, usize) -> u32>(
        self,
        row: usize,
        k: usize,
        workers: usize,
        distance_of: &D,
    ) -> (items: Vec<Candidate>)
        requires
            self.well_formed(),
            crate::nearest::measures_row(*distance_of, row, k as nat),
        ensures
            items@ == settled(
                self.progress(),
                crate::nearest::distances_of(*distance_of, row, k as nat),
                self.probes(),
            ),
    {
        if !self.valid || self.near.len() < self.nprobe || self.exact.len() < self.nprobe {
            return find_topk_with_workers(row, k, self.nprobe, workers, distance_of);
        }
        self.exact.into_sorted()
    }
}

} // verus!
