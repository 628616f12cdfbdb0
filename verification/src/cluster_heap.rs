//! A binary heap of clusters by their number of rows.
use vstd::prelude::*;

verus! {

/// A centroid and the rows nearest to it.
pub struct Cluster {
    pub centroid: Vec<u32>,
    pub rows: Vec<usize>,
}

/// A centroid and its rows.
pub type Piece = (Seq<u32>, Seq<usize>);

/// The cluster as a piece.
pub open spec fn piece(cluster: Cluster) -> Piece {
    (cluster.centroid@, cluster.rows@)
}

/// The clusters as pieces.
pub open spec fn pieces(clusters: Seq<Cluster>) -> Seq<Piece> {
    clusters.map_values(|cluster: Cluster| piece(cluster))
}

/// The number of rows at a place.
pub open spec fn size_at(heap: Seq<Piece>, i: int) -> nat {
    heap[i].1.len()
}

/// The place above another one.
pub open spec fn above(i: int) -> int {
    (i - 1) / 2
}

/// No piece has more rows than the one above it.
pub open spec fn is_heap(heap: Seq<Piece>) -> bool {
    forall|i: int| 0 < i < heap.len() ==> #[trigger] size_at(heap, i) <= size_at(heap, above(i))
}

/// Two pieces exchanged.
pub open spec fn swapped(heap: Seq<Piece>, i: int, j: int) -> Seq<Piece> {
    heap.update(i, heap[j]).update(j, heap[i])
}

/// The piece at `at` moved up past pieces with fewer rows.
pub open spec fn raised(heap: Seq<Piece>, at: int) -> Seq<Piece>
    decreases at,
{
    if at <= 0 || size_at(heap, at) <= size_at(heap, above(at)) {
        heap
    } else {
        raised(swapped(heap, at, above(at)), above(at))
    }
}

/// The place below with more rows; the second on ties.
pub open spec fn larger_below(heap: Seq<Piece>, at: int) -> int {
    if size_at(heap, 2 * at + 1) <= size_at(heap, 2 * at + 2) {
        2 * at + 2
    } else {
        2 * at + 1
    }
}

/// The piece at `at` moved down to the bottom along the larger pieces, and
/// where it ends.
pub open spec fn sunk(heap: Seq<Piece>, at: int) -> (Seq<Piece>, int)
    decreases heap.len() - at,
{
    if at < 0 || 2 * at + 1 >= heap.len() {
        (heap, at)
    } else if 2 * at + 2 == heap.len() {
        (swapped(heap, at, 2 * at + 1), 2 * at + 1)
    } else {
        let next = larger_below(heap, at);
        sunk(swapped(heap, at, next), next)
    }
}

/// The heap with one more piece.
pub open spec fn pushed(heap: Seq<Piece>, new: Piece) -> Seq<Piece> {
    raised(heap.push(new), heap.len() as int)
}

/// The heap without its first piece: the last takes its place, sinks to the
/// bottom and rises from there.
pub open spec fn popped(heap: Seq<Piece>) -> Seq<Piece> {
    if heap.len() <= 1 {
        Seq::empty()
    } else {
        let (low, at) = sunk(heap.drop_last().update(0, heap.last()), 0);
        raised(low, at)
    }
}

/// The first piece has the most rows.
pub proof fn law_first_has_most_rows(heap: Seq<Piece>, i: int)
    requires
        is_heap(heap),
        0 <= i < heap.len(),
    ensures
        size_at(heap, i) <= size_at(heap, 0),
    decreases i,
{
    if i > 0 {
        law_first_has_most_rows(heap, above(i));
        assert(size_at(heap, i) <= size_at(heap, above(i)));
    }
}

/// All is in order but between `at` and the place above it.
spec fn heap_below(heap: Seq<Piece>, at: int) -> bool {
    &&& 0 <= at < heap.len()
    &&& forall|i: int|
        0 < i < heap.len() && i != at ==> #[trigger] size_at(heap, i) <= size_at(heap, above(i))
    &&& forall|i: int|
        0 < i < heap.len() && above(i) == at && at > 0 ==> #[trigger] size_at(heap, i) <= size_at(
            heap,
            above(at),
        )
}

/// All is in order but around `at`.
spec fn heap_around(heap: Seq<Piece>, at: int) -> bool {
    &&& 0 <= at < heap.len()
    &&& forall|i: int|
        0 < i < heap.len() && i != at && above(i) != at ==> #[trigger] size_at(heap, i) <= size_at(
            heap,
            above(i),
        )
    &&& forall|i: int|
        0 < i < heap.len() && above(i) == at && at > 0 ==> #[trigger] size_at(heap, i) <= size_at(
            heap,
            above(at),
        )
}

proof fn lemma_raised(heap: Seq<Piece>, at: int)
    requires
        heap_below(heap, at),
    ensures
        is_heap(raised(heap, at)),
        raised(heap, at).len() == heap.len(),
    decreases at,
{
    if at > 0 && size_at(heap, at) > size_at(heap, above(at)) {
        let up = above(at);
        let next = swapped(heap, at, up);
        assert forall|i: int| 0 < i < next.len() && i != up implies #[trigger] size_at(next, i)
            <= size_at(next, above(i)) by {
            let _ = size_at(heap, i);
            if above(i) == up && i != at {
                assert(size_at(heap, i) <= size_at(heap, up));
            }
        }
        assert forall|i: int| 0 < i < next.len() && above(i) == up && up > 0 implies
            #[trigger] size_at(next, i) <= size_at(next, above(up)) by {
            let _ = size_at(heap, i);
            assert(size_at(heap, up) <= size_at(heap, above(up)));
        }
        lemma_raised(next, up);
    } else if at > 0 {
        assert(is_heap(heap));
    } else {
        assert(is_heap(heap));
    }
}

proof fn lemma_sunk(heap: Seq<Piece>, at: int)
    requires
        heap_around(heap, at),
    ensures
        heap_below(sunk(heap, at).0, sunk(heap, at).1),
        sunk(heap, at).0.len() == heap.len(),
    decreases heap.len() - at,
{
    if 2 * at + 1 >= heap.len() {
        assert(heap_below(heap, at)) by {
            assert forall|i: int| 0 < i < heap.len() && i != at implies #[trigger] size_at(heap, i)
                <= size_at(heap, above(i)) by {
                assert(above(i) != at);
            }
        }
    } else {
        let next = if 2 * at + 2 == heap.len() {
            2 * at + 1
        } else {
            larger_below(heap, at)
        };
        let moved = swapped(heap, at, next);
        assert(above(next) == at);
        assert(heap_around(moved, next)) by {
            assert forall|i: int| 0 < i < moved.len() && i != next && above(i) != next implies
                #[trigger] size_at(moved, i) <= size_at(moved, above(i)) by {
                let _ = size_at(heap, i);
                let _ = size_at(heap, next);
                if i == at {
                    assert(size_at(heap, next) <= size_at(heap, above(at)));
                } else if above(i) == at {
                    assert(i == 2 * at + 1 || i == 2 * at + 2);
                }
            }
            assert forall|i: int| 0 < i < moved.len() && above(i) == next && next > 0 implies
                #[trigger] size_at(moved, i) <= size_at(moved, above(next)) by {
                assert(size_at(heap, i) <= size_at(heap, above(i)));
            }
        }
        if 2 * at + 2 == heap.len() {
            assert(heap_below(moved, next)) by {
                assert forall|i: int| 0 < i < moved.len() && i != next implies #[trigger] size_at(
                    moved,
                    i,
                ) <= size_at(moved, above(i)) by {
                    assert(above(i) != next);
                }
            }
        } else {
            lemma_sunk(moved, next);
        }
    }
}

/// Adding a piece and taking the first one out keep the heap.
pub proof fn law_heap_is_kept(heap: Seq<Piece>, new: Piece)
    requires
        is_heap(heap),
    ensures
        is_heap(pushed(heap, new)),
        pushed(heap, new).len() == heap.len() + 1,
        is_heap(popped(heap)),
        heap.len() > 0 ==> popped(heap).len() == heap.len() - 1,
{
    let more = heap.push(new);
    assert(heap_below(more, heap.len() as int)) by {
        assert forall|i: int| 0 < i < more.len() && i != heap.len() implies #[trigger] size_at(
            more,
            i,
        ) <= size_at(more, above(i)) by {
            assert(size_at(heap, i) <= size_at(heap, above(i)));
        }
        assert forall|i: int|
            0 < i < more.len() && above(i) == heap.len() && heap.len() > 0 implies
            #[trigger] size_at(more, i) <= size_at(more, above(heap.len() as int)) by {
            assert(i < above(i));
        }
    }
    lemma_raised(more, heap.len() as int);
    if heap.len() > 1 {
        let rest = heap.drop_last().update(0, heap.last());
        assert(heap_around(rest, 0)) by {
            assert forall|i: int| 0 < i < rest.len() && i != 0 && above(i) != 0 implies
                #[trigger] size_at(rest, i) <= size_at(rest, above(i)) by {
                assert(size_at(heap, i) <= size_at(heap, above(i)));
            }
        }
        lemma_sunk(rest, 0);
        lemma_raised(sunk(rest, 0).0, sunk(rest, 0).1);
    }
}

/// Every piece has a property.
pub open spec fn all_hold(heap: Seq<Piece>, keep: spec_fn(Piece) -> bool) -> bool {
    forall|i: int| 0 <= i < heap.len() ==> keep(#[trigger] heap[i])
}

proof fn lemma_raised_holds(heap: Seq<Piece>, at: int, keep: spec_fn(Piece) -> bool)
    requires
        all_hold(heap, keep),
        at < heap.len(),
    ensures
        all_hold(raised(heap, at), keep),
        raised(heap, at).len() == heap.len(),
    decreases at,
{
    if at > 0 && size_at(heap, at) > size_at(heap, above(at)) {
        lemma_raised_holds(swapped(heap, at, above(at)), above(at), keep);
    }
}

proof fn lemma_sunk_holds(heap: Seq<Piece>, at: int, keep: spec_fn(Piece) -> bool)
    requires
        all_hold(heap, keep),
        0 <= at < heap.len(),
    ensures
        all_hold(sunk(heap, at).0, keep),
        sunk(heap, at).0.len() == heap.len(),
        0 <= sunk(heap, at).1 < heap.len(),
    decreases heap.len() - at,
{
    if 2 * at + 1 < heap.len() && 2 * at + 2 != heap.len() {
        let next = larger_below(heap, at);
        lemma_sunk_holds(swapped(heap, at, next), next, keep);
    }
}

/// What holds of all pieces and a new one still holds after the new one was
/// added, or the first was taken out.
pub proof fn law_pieces_are_kept(heap: Seq<Piece>, new: Piece, keep: spec_fn(Piece) -> bool)
    requires
        all_hold(heap, keep),
    ensures
        keep(new) ==> all_hold(pushed(heap, new), keep),
        pushed(heap, new).len() == heap.len() + 1,
        all_hold(popped(heap), keep),
        heap.len() > 0 ==> popped(heap).len() == heap.len() - 1,
{
    lemma_raised_len(heap.push(new), heap.len() as int);
    if keep(new) {
        lemma_raised_holds(heap.push(new), heap.len() as int, keep);
    }
    if heap.len() > 1 {
        let rest = heap.drop_last().update(0, heap.last());
        assert(heap.last() == heap[heap.len() - 1]);
        lemma_sunk_holds(rest, 0, keep);
        lemma_raised_holds(sunk(rest, 0).0, sunk(rest, 0).1, keep);
    }
}

proof fn lemma_raised_len(heap: Seq<Piece>, at: int)
    requires
        at < heap.len(),
    ensures
        raised(heap, at).len() == heap.len(),
    decreases at,
{
    if at > 0 && size_at(heap, at) > size_at(heap, above(at)) {
        lemma_raised_len(swapped(heap, at, above(at)), above(at));
    }
}

/// Clusters as a binary heap.
pub struct ClusterHeap {
    items: Vec<Cluster>,
}

impl ClusterHeap {
    /// The pieces in the order of the heap.
    pub closed spec fn order(self) -> Seq<Piece> {
        pieces(self.items@)
    }

    pub fn new() -> (heap: Self)
        ensures
            heap.order() == Seq::<Piece>::empty(),
    {
        let heap = ClusterHeap { items: Vec::new() };
        assert(heap.order() =~= Seq::<Piece>::empty());
        heap
    }

    pub fn len(&self) -> (len: usize)
        ensures
            len == self.order().len(),
    {
        self.items.len()
    }

    fn exchange(&mut self, i: usize, j: usize)
        requires
            i < old(self).order().len(),
            j < old(self).order().len(),
            i != j,
        ensures
            final(self).order() == swapped(old(self).order(), i as int, j as int),
    {
        let ghost before = self.order();
        let mut held = Cluster { centroid: Vec::new(), rows: Vec::new() };
        std::mem::swap(&mut held, &mut self.items[i]);
        std::mem::swap(&mut held, &mut self.items[j]);
        std::mem::swap(&mut held, &mut self.items[i]);
        assert(self.order() =~= swapped(before, i as int, j as int));
    }

    fn raise(&mut self, start: usize)
        requires
            start < old(self).order().len(),
        ensures
            final(self).order() == raised(old(self).order(), start as int),
    {
        let ghost goal = raised(self.order(), start as int);
        let mut at: usize = start;
        while at > 0 && self.items[at].rows.len() > self.items[(at - 1) / 2].rows.len()
            invariant
                at < self.order().len(),
                self.order() == pieces(self.items@),
                raised(self.order(), at as int) == goal,
            decreases at,
        {
            let up: usize = (at - 1) / 2;
            assert(size_at(self.order(), at as int) > size_at(self.order(), up as int));
            self.exchange(at, up);
            at = up;
        }
        proof {
            if at > 0 {
                assert(size_at(self.order(), at as int) <= size_at(
                    self.order(),
                    above(at as int),
                ));
            }
        }
    }

    fn sink(&mut self) -> (at: usize)
        requires
            0 < old(self).order().len(),
        ensures
            (final(self).order(), at as int) == sunk(old(self).order(), 0),
            at < final(self).order().len(),
    {
        let ghost goal = sunk(self.order(), 0);
        let len: usize = self.items.len();
        let mut at: usize = 0;
        while at < len / 2 && 2 * at + 2 < len
            invariant
                at < len,
                len == self.order().len(),
                self.order() == pieces(self.items@),
                sunk(self.order(), at as int) == goal,
            decreases len - at,
        {
            let next: usize = if self.items[2 * at + 1].rows.len() <= self.items[2 * at
                + 2].rows.len() {
                2 * at + 2
            } else {
                2 * at + 1
            };
            assert(next == larger_below(self.order(), at as int));
            self.exchange(at, next);
            at = next;
        }
        if at < len / 2 && 2 * at + 2 == len {
            self.exchange(at, 2 * at + 1);
            at = 2 * at + 1;
        }
        at
    }

    pub fn push(&mut self, cluster: Cluster)
        ensures
            final(self).order() == pushed(old(self).order(), piece(cluster)),
    {
        let ghost before = self.order();
        self.items.push(cluster);
        assert(self.order() =~= before.push(piece(cluster)));
        let last: usize = self.items.len() - 1;
        self.raise(last);
    }

    /// Takes out the first cluster.
    pub fn pop(&mut self) -> (first: Option<Cluster>)
        ensures
            match first {
                Some(cluster) => {
                    &&& old(self).order().len() > 0
                    &&& piece(cluster) == old(self).order()[0]
                    &&& final(self).order() == popped(old(self).order())
                },
                None => old(self).order().len() == 0 && final(self).order() == old(self).order(),
            },
    {
        let ghost before = self.order();
        match self.items.pop() {
            None => None,
            Some(last) => {
                if self.items.len() == 0 {
                    assert(self.order() =~= Seq::<Piece>::empty());
                    return Some(last);
                }
                let mut first = last;
                assert(self.order() =~= before.drop_last());
                std::mem::swap(&mut first, &mut self.items[0]);
                assert(self.order() =~= before.drop_last().update(0, before.last()));
                let at: usize = self.sink();
                self.raise(at);
                Some(first)
            },
        }
    }
}

} // verus!
