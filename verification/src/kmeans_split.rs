//! Many clusters by splitting few.
use crate::arith::smaller;
use crate::cluster_heap::{Cluster, ClusterHeap, Piece};
use crate::distance::copy_numbers;
use crate::kmeans::zeros;
use crate::kmeans_plan::KMeansConfig;
use crate::lists::group_rows;
use vstd::prelude::*;

verus! {

/// Clusters that splitting begins with, at most.
pub const INITIAL_CLUSTERS: usize = 16;

/// A cluster with fewer rows is not split.
pub const MIN_SPLIT_ROWS: usize = 4;

/// Iterations of a run that splits a cluster.
pub const SPLIT_ITERATIONS: usize = 10;

/// The clusters that splitting begins with.
pub fn initial_clusters(target: usize) -> (count: usize)
    ensures
        count == (if target <= INITIAL_CLUSTERS {
            target
        } else {
            INITIAL_CLUSTERS
        }),
{
    smaller(target, INITIAL_CLUSTERS)
}

/// What splitting holds: finished centroids, a heap of pieces that may be
/// split, and the piece that is being split.
#[verifier::ext_equal]
pub struct SplitState {
    pub finished: Seq<Seq<u32>>,
    pub open: Seq<Piece>,
    pub pending: Option<Piece>,
}

/// Enough centroids, or nothing left to split.
pub open spec fn is_settled(state: SplitState, target: nat) -> bool {
    state.finished.len() + state.open.len() >= target || state.open.len() == 0
}

/// The state with the next piece to split taken out: one with the most rows.
/// Pieces too small to split are finished on the way.
pub open spec fn advanced(state: SplitState, target: nat) -> SplitState
    decreases state.open.len(),
{
    if is_settled(state, target) {
        state
    } else {
        let piece = state.open[0];
        let rest = crate::cluster_heap::popped(state.open);
        if rest.len() >= state.open.len() {
            state
        } else if piece.1.len() < MIN_SPLIT_ROWS {
            advanced(
                SplitState { finished: state.finished.push(piece.0), open: rest, ..state },
                target,
            )
        } else {
            SplitState { open: rest, pending: Some(piece), ..state }
        }
    }
}

/// The rows of a piece that were assigned to one of its parts.
pub open spec fn part_rows(rows: Seq<usize>, assignments: Seq<usize>, part: int) -> Seq<usize> {
    let places = crate::lists::rows_of(assignments, part, assignments.len());
    Seq::new(places.len(), |i: int| rows[places[i] as int])
}

/// The state after the pending piece was divided. Where all its rows went to
/// one part it is finished as it was.
pub open spec fn divided(
    state: SplitState,
    piece: Piece,
    centroids: Seq<u32>,
    d: int,
    assignments: Seq<usize>,
) -> SplitState {
    let left = part_rows(piece.1, assignments, 0);
    let right = part_rows(piece.1, assignments, 1);
    if left.len() == 0 || right.len() == 0 {
        SplitState { finished: state.finished.push(piece.0), open: state.open, pending: None }
    } else {
        SplitState {
            finished: state.finished,
            open: crate::cluster_heap::pushed(
                crate::cluster_heap::pushed(state.open, (centroids.subrange(0, d), left)),
                (centroids.subrange(d, 2 * d), right),
            ),
            pending: None,
        }
    }
}

/// The centroids of the pieces, those with more rows first.
pub open spec fn drained(open: Seq<Piece>) -> Seq<Seq<u32>>
    decreases open.len(),
{
    let rest = crate::cluster_heap::popped(open);
    if open.len() == 0 || rest.len() >= open.len() {
        Seq::empty()
    } else {
        seq![open[0].0] + drained(rest)
    }
}

/// All centroids that splitting produced.
pub open spec fn produced(state: SplitState) -> Seq<Seq<u32>> {
    state.finished + drained(state.open)
}

/// The centroids one after the other.
pub open spec fn joined(centroids: Seq<Seq<u32>>) -> Seq<u32>
    decreases centroids.len(),
{
    if centroids.len() == 0 {
        Seq::empty()
    } else {
        joined(centroids.drop_last()) + centroids.last()
    }
}

/// `target` centroids: those produced, beginning again after the last.
pub open spec fn repeated(centroids: Seq<Seq<u32>>, target: nat) -> Seq<Seq<u32>> {
    Seq::new(target, |i: int| centroids[i % centroids.len() as int])
}

/// How much splitting is left to do, at most.
pub open spec fn split_measure(state: SplitState, target: nat) -> int {
    let pending = if state.pending is Some {
        1int
    } else {
        0
    };
    let count = state.finished.len() + state.open.len() + pending;
    2 * (target - count) + state.open.len() + pending
}

/// Dividing a piece leaves less to do, so that splitting ends.
pub proof fn law_dividing_makes_progress(
    state: SplitState,
    target: nat,
    piece: Piece,
    centroids: Seq<u32>,
    d: int,
    assignments: Seq<usize>,
)
    requires
        state.pending == Some(piece),
        crate::cluster_heap::is_heap(state.open),
    ensures
        crate::cluster_heap::is_heap(
            divided(state, piece, centroids, d, assignments).open,
        ),
        split_measure(divided(state, piece, centroids, d, assignments), target) < split_measure(
            state,
            target,
        ),
{
    let left = (centroids.subrange(0, d), part_rows(piece.1, assignments, 0));
    let right = (centroids.subrange(d, 2 * d), part_rows(piece.1, assignments, 1));
    crate::cluster_heap::law_heap_is_kept(state.open, left);
    crate::cluster_heap::law_heap_is_kept(
        crate::cluster_heap::pushed(state.open, left),
        right,
    );
}

/// Finishing pieces and taking one out adds no work, and never yields more
/// centroids than wanted. The piece taken out has the most rows of all.
pub proof fn law_advancing_adds_no_work(state: SplitState, target: nat)
    requires
        state.pending is None,
        state.finished.len() + state.open.len() <= target,
        crate::cluster_heap::is_heap(state.open),
    ensures
        ({
            let after = advanced(state, target);
            &&& crate::cluster_heap::is_heap(after.open)
            &&& split_measure(after, target) <= split_measure(state, target)
            &&& after.finished.len() + after.open.len() + (if after.pending is Some {
                1int
            } else {
                0
            }) == state.finished.len() + state.open.len()
            &&& after.pending is None ==> is_settled(after, target)
            &&& after.pending matches Some(piece) ==> {
                &&& piece.1.len() >= MIN_SPLIT_ROWS
                &&& forall|i: int|
                    0 <= i < state.open.len() ==> (#[trigger] state.open[i]).1.len()
                        <= piece.1.len()
            }
        }),
    decreases state.open.len(),
{
    if !is_settled(state, target) {
        let piece = state.open[0];
        let rest = crate::cluster_heap::popped(state.open);
        crate::cluster_heap::law_heap_is_kept(state.open, piece);
        assert forall|i: int| 0 <= i < state.open.len() implies (#[trigger] state.open[i]).1.len()
            <= piece.1.len() by {
            crate::cluster_heap::law_first_has_most_rows(state.open, i);
            assert(crate::cluster_heap::size_at(state.open, i)
                <= crate::cluster_heap::size_at(state.open, 0));
        }
        if piece.1.len() < MIN_SPLIT_ROWS {
            let next = SplitState { finished: state.finished.push(piece.0), open: rest, ..state };
            law_advancing_adds_no_work(next, target);
            let keep = smaller_than(MIN_SPLIT_ROWS as nat);
            assert(crate::cluster_heap::all_hold(state.open, keep));
            crate::cluster_heap::law_pieces_are_kept(state.open, piece, keep);
            lemma_small_pieces_are_not_split(next, target);
        }
    }
}

/// Pieces with fewer than `limit` rows.
spec fn smaller_than(limit: nat) -> spec_fn(Piece) -> bool {
    |piece: Piece| piece.1.len() < limit
}

/// Where all pieces are too small, none is taken out to be split.
proof fn lemma_small_pieces_are_not_split(state: SplitState, target: nat)
    requires
        state.pending is None,
        crate::cluster_heap::all_hold(state.open, smaller_than(MIN_SPLIT_ROWS as nat)),
    ensures
        advanced(state, target).pending is None,
    decreases state.open.len(),
{
    if !is_settled(state, target) {
        let keep = smaller_than(MIN_SPLIT_ROWS as nat);
        let piece = state.open[0];
        let rest = crate::cluster_heap::popped(state.open);
        assert(keep(state.open[0]));
        crate::cluster_heap::law_pieces_are_kept(state.open, piece, keep);
        let next = SplitState { finished: state.finished.push(piece.0), open: rest, ..state };
        lemma_small_pieces_are_not_split(next, target);
    }
}

/// The two parts of a divided piece together hold its rows, each once.
pub proof fn law_parts_hold_all_rows(rows: Seq<usize>, assignments: Seq<usize>)
    requires
        rows.len() == assignments.len() <= usize::MAX,
        forall|i: int| 0 <= i < assignments.len() ==> #[trigger] assignments[i] < 2,
    ensures
        part_rows(rows, assignments, 0).len() + part_rows(rows, assignments, 1).len()
            == rows.len(),
        forall|i: int|
            0 <= i < rows.len() ==> part_rows(rows, assignments, 0).contains(#[trigger] rows[i])
                || part_rows(rows, assignments, 1).contains(rows[i]),
{
    crate::lists::law_groups_hold_every_row(assignments, 2, assignments.len());
    reveal_with_fuel(crate::lists::grouped_count, 3);
    assert forall|i: int| 0 <= i < rows.len() implies part_rows(rows, assignments, 0).contains(
        #[trigger] rows[i],
    ) || part_rows(rows, assignments, 1).contains(rows[i]) by {
        let part = assignments[i] as int;
        let places = crate::lists::rows_of(assignments, part, assignments.len());
        crate::matching::lemma_picked(
            crate::lists::assigned_to(assignments, part),
            assignments.len(),
        );
        assert(crate::lists::assigned_to(assignments, part)(i));
        assert(places.contains(i as usize));
        let j = choose|j: int| 0 <= j < places.len() && places[j] == i as usize;
        assert(part_rows(rows, assignments, part)[j] == rows[i]);
    }
}

/// A cluster to be split, and the parameters of the run that does it.
pub struct SplitTask {
    pub rows: Vec<usize>,
    pub config: KMeansConfig,
}

/// Splits the largest cluster again and again until there are enough.
pub struct ClusterSplitter {
    d: usize,
    target: usize,
    seed: u64,
    finished: Vec<Vec<u32>>,
    open: ClusterHeap,
    pending: Option<Cluster>,
}

/// The centroids of a list.
pub open spec fn centroid_views(centroids: Seq<Vec<u32>>) -> Seq<Seq<u32>> {
    centroids.map_values(|centroid: Vec<u32>| centroid@)
}

/// The pieces that splitting begins with.
pub open spec fn initial_pieces(
    centroids: Seq<u32>,
    count: nat,
    d: int,
    assignments: Seq<usize>,
) -> Seq<Piece> {
    Seq::new(
        count,
        |c: int|
            (
                centroids.subrange(c * d, c * d + d),
                crate::lists::rows_of(assignments, c, assignments.len()),
            ),
    )
}

/// A piece with a centroid of the right size.
pub open spec fn is_wide(d: nat) -> spec_fn(Piece) -> bool {
    |piece: Piece| piece.0.len() == d
}

/// The heap after pieces were added in turn.
pub open spec fn all_pushed(pieces: Seq<Piece>) -> Seq<Piece>
    decreases pieces.len(),
{
    if pieces.len() == 0 {
        Seq::empty()
    } else {
        crate::cluster_heap::pushed(all_pushed(pieces.drop_last()), pieces.last())
    }
}

/// Centroids have the right size, and there are not too many.
pub open spec fn state_fits(state: SplitState, d: nat, target: nat) -> bool {
    &&& forall|i: int| 0 <= i < state.finished.len() ==> (#[trigger] state.finished[i]).len() == d
    &&& crate::cluster_heap::all_hold(state.open, is_wide(d))
    &&& crate::cluster_heap::is_heap(state.open)
    &&& state.pending matches Some(piece) ==> piece.0.len() == d
    &&& state.finished.len() + state.open.len() + (if state.pending is Some {
        2int
    } else {
        0
    }) <= target
}

fn copy_part(values: &Vec<u32>, from: usize, to: usize) -> (part: Vec<u32>)
    requires
        from <= to <= values@.len(),
    ensures
        part@ == values@.subrange(from as int, to as int),
{
    let mut part: Vec<u32> = Vec::new();
    let mut i: usize = from;
    while i < to
        invariant
            from <= i <= to <= values@.len(),
            part@ == values@.subrange(from as int, i as int),
        decreases to - i,
    {
        part.push(values[i]);
        assert(values@.subrange(from as int, i + 1) =~= part@);
        i = i + 1;
    }
    part
}

fn copy_rows(rows: &Vec<usize>) -> (copy: Vec<usize>)
    ensures
        copy@ == rows@,
{
    let mut copy: Vec<usize> = Vec::new();
    let mut i: usize = 0;
    while i < rows.len()
        invariant
            i <= rows@.len(),
            copy@ == rows@.take(i as int),
        decreases rows@.len() - i,
    {
        copy.push(rows[i]);
        assert(rows@.take(i + 1) =~= copy@);
        i = i + 1;
    }
    assert(rows@.take(rows@.len() as int) =~= rows@);
    copy
}

/// The rows at some places of a list.
fn rows_at(rows: &Vec<usize>, places: &Vec<usize>) -> (taken: Vec<usize>)
    requires
        forall|i: int| 0 <= i < places@.len() ==> #[trigger] places@[i] < rows@.len(),
    ensures
        taken@ == Seq::new(places@.len(), |i: int| rows@[places@[i] as int]),
{
    let mut taken: Vec<usize> = Vec::new();
    let mut i: usize = 0;
    while i < places.len()
        invariant
            i <= places@.len(),
            forall|j: int| 0 <= j < places@.len() ==> #[trigger] places@[j] < rows@.len(),
            taken@ == Seq::new(i as nat, |j: int| rows@[places@[j] as int]),
        decreases places@.len() - i,
    {
        let place: usize = places[i];
        taken.push(rows[place]);
        assert(taken@ =~= Seq::new((i + 1) as nat, |j: int| rows@[places@[j] as int]));
        i = i + 1;
    }
    taken
}

impl ClusterSplitter {
    /// What changes from split to split. The width, the goal and the first seed
    /// stay as they were given.
    pub closed spec fn progress(self) -> SplitState {
        SplitState {
            finished: centroid_views(self.finished@),
            open: self.open.order(),
            pending: match self.pending {
                Some(cluster) => Some((cluster.centroid@, cluster.rows@)),
                None => None,
            },
        }
    }

    pub closed spec fn width(self) -> nat {
        self.d as nat
    }

    pub closed spec fn goal(self) -> nat {
        self.target as nat
    }

    pub closed spec fn first_seed(self) -> u64 {
        self.seed
    }

    pub open spec fn well_formed(self) -> bool {
        &&& state_fits(self.progress(), self.width(), self.goal())
        &&& self.goal() * self.width() <= usize::MAX
        &&& self.first_seed() + self.goal() <= u64::MAX
    }

    /// Begins with the given centroids and the rows assigned to each.
    pub fn begin(
        target: usize,
        d: usize,
        seed: u64,
        centroids: &Vec<u32>,
        initial: usize,
        assignments: &Vec<usize>,
    ) -> (splitter: Self)
        requires
            initial <= target,
            target * d <= usize::MAX,
            seed + target <= u64::MAX,
            centroids@.len() == initial * d,
            forall|i: int| 0 <= i < assignments@.len() ==> #[trigger] assignments@[i] < initial,
        ensures
            splitter.well_formed(),
            splitter.width() == d,
            splitter.goal() == target,
            splitter.first_seed() == seed,
            splitter.progress() == (SplitState {
                finished: Seq::empty(),
                open: all_pushed(
                    initial_pieces(centroids@, initial as nat, d as int, assignments@),
                ),
                pending: None,
            }),
    {
        let mut groups = group_rows(assignments.as_slice(), initial);
        let mut open = ClusterHeap::new();
        let size: usize = centroids.len();
        let ghost wanted = initial_pieces(centroids@, initial as nat, d as int, assignments@);
        let ghost grouped = groups@;
        let mut c: usize = 0;
        assert(wanted.take(0) =~= Seq::<Piece>::empty());
        while c < initial
            invariant
                c <= initial,
                size == centroids@.len() == initial * d,
                groups@.len() == grouped.len() == initial,
                forall|l: int| c <= l < initial ==> #[trigger] groups@[l] == grouped[l],
                forall|l: int|
                    0 <= l < initial ==> (#[trigger] grouped[l])@ == crate::lists::rows_of(
                        assignments@,
                        l,
                        assignments@.len(),
                    ),
                wanted == initial_pieces(centroids@, initial as nat, d as int, assignments@),
                open.order() == all_pushed(wanted.take(c as int)),
                open.order().len() == c,
                crate::cluster_heap::all_hold(open.order(), is_wide(d as nat)),
                crate::cluster_heap::is_heap(open.order()),
            decreases initial - c,
        {
            proof {
                assert(c * d + d <= initial * d) by (nonlinear_arith)
                    requires
                        c + 1 <= initial,
                ;
                assert(0 <= c * d) by (nonlinear_arith);
            }
            let from: usize = c * d;
            let centroid = copy_part(centroids, from, from + d);
            let mut rows: Vec<usize> = Vec::new();
            assert(groups@[c as int] == grouped[c as int]);
            std::mem::swap(&mut rows, &mut groups[c]);
            let ghost before = open.order();
            let cluster = Cluster { centroid, rows };
            proof {
                let new = crate::cluster_heap::piece(cluster);
                assert(new == wanted[c as int]);
                assert(is_wide(d as nat)(new));
                crate::cluster_heap::law_heap_is_kept(before, new);
                crate::cluster_heap::law_pieces_are_kept(before, new, is_wide(d as nat));
                assert(wanted.take(c + 1).drop_last() =~= wanted.take(c as int));
                assert(wanted.take(c + 1).last() == new);
            }
            open.push(cluster);
            c = c + 1;
        }
        let splitter = ClusterSplitter {
            d,
            target,
            seed,
            finished: Vec::new(),
            open,
            pending: None,
        };
        proof {
            assert(wanted.take(initial as int) =~= wanted);
            assert(centroid_views(splitter.finished@) =~= Seq::empty());
        }
        splitter
    }

    /// The next cluster to split, if there is one.
    pub fn next_split(&mut self) -> (task: Option<SplitTask>)
        requires
            old(self).well_formed(),
            old(self).progress().pending is None,
        ensures
            final(self).well_formed(),
            final(self).width() == old(self).width(),
            final(self).goal() == old(self).goal(),
            final(self).first_seed() == old(self).first_seed(),
            final(self).progress() == advanced(old(self).progress(), old(self).goal()),
            match task {
                Some(task) => {
                    &&& final(self).progress().pending matches Some(piece)
                    &&& task.rows@ == piece.1
                    &&& task.config.niter == SPLIT_ITERATIONS
                    &&& task.config.seed == old(self).first_seed()
                        + final(self).progress().finished.len()
                    &&& task.config.nredo == 1
                    &&& task.config.max_points_per_centroid == 256
                    &&& task.config.balance_factor == 0
                },
                None => final(self).progress().pending is None,
            },
    {
        let ghost start = self.progress();
        let ghost goal = self.goal();
        let ghost width = self.width();
        let ghost seed = self.first_seed();
        while self.finished.len() < self.target && self.open.len() > 0 && self.open.len()
            < self.target - self.finished.len()
            invariant
                self.well_formed(),
                self.width() == width,
                self.goal() == goal,
                self.first_seed() == seed,
                self.pending is None,
                start == old(self).progress(),
                width == old(self).width(),
                goal == old(self).goal(),
                seed == old(self).first_seed(),
                advanced(self.progress(), goal) == advanced(start, goal),
            decreases self.progress().open.len(),
        {
            let ghost before = self.progress();
            proof {
                crate::cluster_heap::law_heap_is_kept(before.open, before.open[0]);
                crate::cluster_heap::law_pieces_are_kept(
                    before.open,
                    before.open[0],
                    is_wide(width),
                );
                assert(is_wide(width)(before.open[0]));
            }
            let cluster = match self.open.pop() {
                Some(cluster) => cluster,
                None => {
                    return None;
                },
            };
            if cluster.rows.len() < MIN_SPLIT_ROWS {
                self.finished.push(cluster.centroid);
                proof {
                    assert(centroid_views(self.finished@) =~= before.finished.push(
                        before.open[0].0,
                    ));
                    assert forall|i: int| 0 <= i < self.progress().finished.len() implies (
                    #[trigger] self.progress().finished[i]).len() == width by {
                        if i < before.finished.len() {
                            assert(before.finished[i].len() == width);
                        }
                    }
                }
            } else {
                let rows = copy_rows(&cluster.rows);
                self.pending = Some(cluster);
                let config = KMeansConfig::with_iterations(
                    SPLIT_ITERATIONS,
                    self.seed + self.finished.len() as u64,
                );
                proof {
                    assert(self.progress() =~= advanced(before, goal));
                    assert forall|i: int| 0 <= i < self.progress().finished.len() implies (
                    #[trigger] self.progress().finished[i]).len() == width by {
                        assert(before.finished[i].len() == width);
                    }
                }
                return Some(SplitTask { rows, config });
            }
        }
        assert(is_settled(self.progress(), goal));
        None
    }

    /// The pending cluster was divided: its two centroids, and for each of its
    /// rows which of them is nearer.
    pub fn split(&mut self, centroids: &Vec<u32>, assignments: &Vec<usize>)
        requires
            old(self).well_formed(),
            old(self).progress().pending matches Some(piece) && piece.1.len() == assignments@.len(),
            centroids@.len() == 2 * old(self).width(),
            forall|i: int| 0 <= i < assignments@.len() ==> #[trigger] assignments@[i] < 2,
        ensures
            final(self).well_formed(),
            final(self).width() == old(self).width(),
            final(self).goal() == old(self).goal(),
            final(self).first_seed() == old(self).first_seed(),
            final(self).progress() == divided(
                old(self).progress(),
                old(self).progress().pending->0,
                centroids@,
                old(self).width() as int,
                assignments@,
            ),
    {
        let ghost before = self.progress();
        let ghost width = self.width();
        let ghost piece = before.pending->0;
        let mut taken: Option<Cluster> = None;
        std::mem::swap(&mut taken, &mut self.pending);
        match taken {
            Some(cluster) => {
                let groups = group_rows(assignments.as_slice(), 2);
                let total: usize = assignments.len();
                proof {
                    assert(total == assignments@.len());
                    crate::matching::lemma_picked(
                        crate::lists::assigned_to(assignments@, 0),
                        assignments@.len(),
                    );
                    crate::matching::lemma_picked(
                        crate::lists::assigned_to(assignments@, 1),
                        assignments@.len(),
                    );
                    assert(groups@[0]@ == crate::lists::rows_of(
                        assignments@,
                        0,
                        assignments@.len(),
                    ));
                    assert(groups@[1]@ == crate::lists::rows_of(
                        assignments@,
                        1,
                        assignments@.len(),
                    ));
                }
                let left = rows_at(&cluster.rows, &groups[0]);
                let right = rows_at(&cluster.rows, &groups[1]);
                assert(left@ =~= part_rows(piece.1, assignments@, 0));
                assert(right@ =~= part_rows(piece.1, assignments@, 1));
                if left.len() == 0 || right.len() == 0 {
                    self.finished.push(cluster.centroid);
                    proof {
                        assert(centroid_views(self.finished@) =~= before.finished.push(piece.0));
                        assert forall|i: int| 0 <= i < self.progress().finished.len() implies (
                        #[trigger] self.progress().finished[i]).len() == width by {
                            if i < before.finished.len() {
                                assert(before.finished[i].len() == width);
                            }
                        }
                    }
                } else {
                    let first = copy_part(centroids, 0, self.d);
                    let second = copy_part(centroids, self.d, centroids.len());
                    let near = Cluster { centroid: first, rows: left };
                    let far = Cluster { centroid: second, rows: right };
                    proof {
                        let one = crate::cluster_heap::piece(near);
                        let two = crate::cluster_heap::piece(far);
                        let keep = is_wide(width);
                        assert(keep(one) && keep(two));
                        crate::cluster_heap::law_heap_is_kept(before.open, one);
                        crate::cluster_heap::law_pieces_are_kept(before.open, one, keep);
                        let more = crate::cluster_heap::pushed(before.open, one);
                        crate::cluster_heap::law_heap_is_kept(more, two);
                        crate::cluster_heap::law_pieces_are_kept(more, two, keep);
                    }
                    self.open.push(near);
                    self.open.push(far);
                }
            },
            None => {},
        }
    }

    /// All `target` centroids, one after the other. Where splitting produced
    /// fewer they are repeated in turn; where it produced none they are zero.
    pub fn finish(self) -> (centroids: Vec<u32>)
        requires
            self.well_formed(),
            self.progress().pending is None,
        ensures
            centroids@.len() == self.goal() * self.width(),
            produced(self.progress()).len() > 0 ==> centroids@ == joined(
                repeated(produced(self.progress()), self.goal()),
            ),
            produced(self.progress()).len() == 0 ==> forall|i: int|
                0 <= i < centroids@.len() ==> #[trigger] centroids@[i] == 0,
    {
        let ghost start = self.progress();
        let ghost all = produced(start);
        let ghost width = self.width();
        let d: usize = self.d;
        let target: usize = self.target;
        let mut splitter = self;
        let mut list: Vec<Vec<u32>> = Vec::new();
        std::mem::swap(&mut list, &mut splitter.finished);
        proof {
            assert(centroid_views(list@) + drained(splitter.open.order()) =~= all);
            assert forall|i: int| 0 <= i < list@.len() implies (#[trigger] list@[i])@.len() == d by {
                assert(start.finished[i] == list@[i]@);
            }
        }
        while splitter.open.len() > 0
            invariant
                width == d,
                centroid_views(list@) + drained(splitter.open.order()) == all,
                list@.len() + splitter.open.order().len() <= target,
                forall|i: int| 0 <= i < list@.len() ==> (#[trigger] list@[i])@.len() == d,
                crate::cluster_heap::all_hold(splitter.open.order(), is_wide(width)),
            decreases splitter.open.order().len(),
        {
            let ghost open = splitter.open.order();
            let ghost before = list@;
            proof {
                crate::cluster_heap::law_pieces_are_kept(open, open[0], is_wide(width));
                assert(is_wide(width)(open[0]));
            }
            match splitter.open.pop() {
                Some(cluster) => {
                    list.push(cluster.centroid);
                },
                None => {},
            }
            proof {
                assert(centroid_views(list@) =~= centroid_views(before).push(open[0].0));
                assert(drained(open) == seq![open[0].0] + drained(
                    crate::cluster_heap::popped(open),
                ));
                assert(centroid_views(list@) + drained(splitter.open.order()) =~= all);
            }
        }
        assert(drained(splitter.open.order()) =~= Seq::empty());
        assert(centroid_views(list@) =~= all);
        if list.len() == 0 {
            return zeros(target * d);
        }
        let count: usize = list.len();
        let ghost rows = repeated(all, target as nat);
        let mut centroids: Vec<u32> = Vec::new();
        let mut i: usize = 0;
        assert(rows.take(0) =~= Seq::empty());
        while i < target
            invariant
                i <= target,
                count == list@.len() > 0,
                centroid_views(list@) == all,
                rows == repeated(all, target as nat),
                forall|j: int| 0 <= j < list@.len() ==> (#[trigger] list@[j])@.len() == d,
                centroids@ == joined(rows.take(i as int)),
                centroids@.len() == i * d,
            decreases target - i,
        {
            let from: usize = i % count;
            let mut row = copy_numbers(&list[from]);
            let ghost before = centroids@;
            let ghost added = row@;
            centroids.append(&mut row);
            proof {
                assert(rows[i as int] == added);
                assert(rows.take(i + 1).drop_last() =~= rows.take(i as int));
                assert(rows.take(i + 1).last() == added);
                assert(centroids@ =~= before + added);
                assert((i + 1) * d == i * d + d) by (nonlinear_arith);
            }
            i = i + 1;
        }
        assert(rows.take(target as int) =~= rows);
        centroids
    }
}

} // verus!
