//! Inverted lists of scalar-quantized residuals.
use crate::distance::MetricType;
use crate::filter::RowIdFilter;
use crate::list_search::search_lists;
use crate::lists::{append_to_lists, empty_lists, group_rows, total_rows};
use crate::order::{INFINITE_DISTANCE, NEGATIVE_INFINITY};
use crate::sq::{pooled_bounds, ScalarQuantizer};
use std::collections::HashSet;
use vstd::prelude::*;

verus! {

/// An index whose rows are residuals with one byte per dimension.
#[derive(Debug)]
pub struct IVFSQIndex {
    pub d: usize,
    pub nlist: usize,
    pub metric: MetricType,
    pub quantizer_centroids: Vec<u32>,
    pub sq: ScalarQuantizer,
    pub list_sqs: Vec<ScalarQuantizer>,
    pub ids: Vec<Vec<i64>>,
    pub codes: Vec<Vec<u8>>,
    /// Whether rows may be assigned to lists approximately.
    pub approximate_assignment: bool,
}

/// The quantizers have the same ranges.
pub open spec fn same_ranges(a: ScalarQuantizer, b: ScalarQuantizer) -> bool {
    &&& a.d == b.d
    &&& a.min == b.min
    &&& a.max == b.max
    &&& a.mins@ == b.mins@
    &&& a.maxs@ == b.maxs@
}

/// The lists below `n` that have rows, ascending.
pub open spec fn filled_lists(assignments: Seq<usize>, n: nat) -> Seq<int>
    decreases n,
{
    if n == 0 {
        Seq::empty()
    } else {
        let before = filled_lists(assignments, (n - 1) as nat);
        if crate::lists::rows_of(assignments, n - 1, assignments.len()).len() > 0 {
            before.push(n - 1)
        } else {
            before
        }
    }
}

/// Residual quantizers of the lists that have rows.
pub open spec fn are_residual_quantizers<S: Fn(u32, usize, usize) -> u32>(
    data: Seq<u32>,
    assignments: Seq<usize>,
    d: usize,
    n: nat,
    subtract: S,
    trained: Seq<ScalarQuantizer>,
) -> bool {
    let lists = filled_lists(assignments, n);
    &&& trained.len() == lists.len()
    &&& forall|i: int|
        0 <= i < trained.len() ==> crate::sq::is_residual_quantizer(
            data,
            crate::lists::rows_of(assignments, lists[i], assignments.len()),
            d,
            lists[i] as usize,
            subtract,
            #[trigger] trained[i],
        )
}

/// `sq` pools the ranges of the trained quantizers.
pub open spec fn pools(sq: ScalarQuantizer, trained: Seq<ScalarQuantizer>) -> bool {
    &&& sq.well_formed()
    &&& crate::sq::bounds_agree(sq)
    &&& forall|dim: int|
        0 <= dim < sq.d ==> #[trigger] sq.mins@[dim] == crate::sq::least(
            INFINITE_DISTANCE,
            Seq::new(trained.len(), |i: int| trained[i].mins@[dim]),
            trained.len(),
        )
    &&& forall|dim: int|
        0 <= dim < sq.d ==> #[trigger] sq.maxs@[dim] == crate::sq::greatest(
            NEGATIVE_INFINITY,
            Seq::new(trained.len(), |i: int| trained[i].maxs@[dim]),
            trained.len(),
        )
}

/// `count` quantizers with the same ranges.
fn repeated(sq: &ScalarQuantizer, count: usize) -> (copies: Vec<ScalarQuantizer>)
    ensures
        copies@.len() == count,
        forall|i: int| 0 <= i < count ==> same_ranges(#[trigger] copies@[i], *sq),
{
    let mut copies: Vec<ScalarQuantizer> = Vec::new();
    let mut i: usize = 0;
    while i < count
        invariant
            i <= count,
            copies@.len() == i,
            forall|j: int| 0 <= j < i ==> same_ranges(#[trigger] copies@[j], *sq),
        decreases count - i,
    {
        copies.push(sq.duplicate());
        i = i + 1;
    }
    copies
}

impl IVFSQIndex {
    /// Every list holds one code per id.
    pub open spec fn well_formed(self) -> bool {
        &&& self.sq.well_formed()
        &&& self.sq.d == self.d
        &&& self.ids@.len() == self.nlist
        &&& self.codes@.len() == self.nlist
        &&& forall|l: int|
            0 <= l < self.nlist ==> (#[trigger] self.codes@[l])@.len() == self.ids@[l]@.len()
                * self.d
    }

    /// No list holds a row.
    pub open spec fn is_empty_index(self) -> bool {
        forall|l: int| 0 <= l < self.nlist ==> (#[trigger] self.ids@[l])@.len() == 0
    }

    pub fn new(d: usize, nlist: usize, metric: MetricType) -> (index: Self)
        ensures
            index.well_formed(),
            index.is_empty_index(),
            index.d == d,
            index.nlist == nlist,
            index.metric == metric,
            index.quantizer_centroids@ == Seq::<u32>::empty(),
            index.list_sqs@.len() == nlist,
            forall|l: int| 0 <= l < nlist ==> same_ranges(#[trigger] index.list_sqs@[l], index.sq),
            index.sq.mins@ == Seq::new(d as nat, |i: int| 0u32),
            index.sq.maxs@ == Seq::new(d as nat, |i: int| 0u32),
            index.sq.min == 0,
            index.sq.max == 0,
            !index.approximate_assignment,
    {
        proof {
            assert(0 * d == 0) by (nonlinear_arith);
        }
        let sq = ScalarQuantizer::new(d);
        let list_sqs = repeated(&sq, nlist);
        IVFSQIndex {
            d,
            nlist,
            metric,
            quantizer_centroids: Vec::new(),
            sq,
            list_sqs,
            ids: empty_lists(nlist),
            codes: empty_lists(nlist),
            approximate_assignment: false,
        }
    }

    pub fn quantizer_centroids(&self) -> (centroids: &[u32])
        ensures
            centroids@ == self.quantizer_centroids@,
    {
        self.quantizer_centroids.as_slice()
    }

    /// Chooses between exact and approximate assignment, while the index is
    /// empty.
    pub fn set_approximate_coarse_assignment(&mut self, enabled: bool)
        requires
            old(self).well_formed(),
            old(self).is_empty_index(),
        ensures
            final(self).approximate_assignment == enabled,
            final(self).d == old(self).d,
            final(self).nlist == old(self).nlist,
            final(self).metric == old(self).metric,
            final(self).quantizer_centroids == old(self).quantizer_centroids,
            final(self).sq == old(self).sq,
            final(self).list_sqs == old(self).list_sqs,
            final(self).ids == old(self).ids,
            final(self).codes == old(self).codes,
    {
        self.approximate_assignment = enabled;
    }

    /// Replaces the centroids, while the index is empty.
    pub fn set_quantizer_centroids(&mut self, centroids: Vec<u32>)
        requires
            old(self).well_formed(),
            old(self).is_empty_index(),
            centroids@.len() == old(self).nlist * old(self).d,
        ensures
            final(self).well_formed(),
            final(self).quantizer_centroids@ == centroids@,
            final(self).d == old(self).d,
            final(self).nlist == old(self).nlist,
            final(self).metric == old(self).metric,
            final(self).approximate_assignment == old(self).approximate_assignment,
            final(self).sq == old(self).sq,
            final(self).list_sqs == old(self).list_sqs,
            final(self).ids == old(self).ids,
            final(self).codes == old(self).codes,
    {
        self.quantizer_centroids = centroids;
    }

    /// Trains the ranges on vectors and their assignments to lists: the ranges
    /// of the residuals of all lists are pooled, and every list uses the pool.
    /// `subtract` takes the centroid of a list in a dimension from a value.
    pub fn train_list_sqs<S: Fn(u32, usize, usize) -> u32>(
        &mut self,
        data: &[u32],
        assignments: &[usize],
        subtract: &S,
    )
        requires
            old(self).well_formed(),
            assignments@.len() * old(self).d <= data@.len(),
            forall|i: int|
                0 <= i < assignments@.len() ==> #[trigger] assignments@[i] < old(self).nlist,
            forall|value: u32, list: usize, dim: usize|
                list < old(self).nlist && dim < old(self).d ==> #[trigger] call_requires(
                    subtract,
                    (value, list, dim),
                ),
        ensures
            final(self).well_formed(),
            final(self).d == old(self).d,
            final(self).nlist == old(self).nlist,
            final(self).metric == old(self).metric,
            final(self).quantizer_centroids == old(self).quantizer_centroids,
            final(self).approximate_assignment == old(self).approximate_assignment,
            final(self).ids == old(self).ids,
            final(self).codes == old(self).codes,
            final(self).list_sqs@.len() == old(self).nlist,
            forall|l: int|
                0 <= l < old(self).nlist ==> same_ranges(
                    #[trigger] final(self).list_sqs@[l],
                    final(self).sq,
                ),
            assignments@.len() == 0 ==> {
                &&& final(self).sq.mins@ == Seq::new(old(self).d as nat, |i: int| 0u32)
                &&& final(self).sq.maxs@ == Seq::new(old(self).d as nat, |i: int| 0u32)
                &&& final(self).sq.min == 0
                &&& final(self).sq.max == 0
            },
            assignments@.len() > 0 ==> exists|trained: Seq<ScalarQuantizer>| #[trigger]
                are_residual_quantizers(
                    data@,
                    assignments@,
                    old(self).d,
                    old(self).nlist as nat,
                    *subtract,
                    trained,
                ) && pools(final(self).sq, trained),
    {
        if assignments.len() == 0 {
            self.sq = ScalarQuantizer::new(self.d);
            self.list_sqs = repeated(&self.sq, self.nlist);
            return;
        }
        let d: usize = self.d;
        let nlist: usize = self.nlist;
        let count: usize = assignments.len();
        let groups = group_rows(assignments, nlist);
        let mut trained: Vec<ScalarQuantizer> = Vec::new();
        let mut l: usize = 0;
        while l < nlist
            invariant
                l <= nlist,
                groups@.len() == nlist,
                count == assignments@.len(),
                count * d <= data@.len(),
                forall|k: int|
                    0 <= k < nlist ==> (#[trigger] groups@[k])@ == crate::lists::rows_of(
                        assignments@,
                        k,
                        assignments@.len(),
                    ),
                forall|value: u32, list: usize, dim: usize|
                    list < nlist && dim < d ==> #[trigger] call_requires(
                        subtract,
                        (value, list, dim),
                    ),
                are_residual_quantizers(
                    data@,
                    assignments@,
                    d,
                    l as nat,
                    *subtract,
                    trained@,
                ),
            decreases nlist - l,
        {
            let rows = &groups[l];
            let ghost lists = filled_lists(assignments@, l as nat);
            let ghost more = filled_lists(assignments@, (l + 1) as nat);
            if rows.len() > 0 {
                proof {
                    crate::matching::lemma_picked(
                        crate::lists::assigned_to(assignments@, l as int),
                        count as nat,
                    );
                    assert forall|i: int| 0 <= i < rows@.len() implies (#[trigger] rows@[i] + 1) * d
                        <= data@.len() by {
                        let row = rows@[i] as int;
                        assert((row + 1) * d <= count * d) by (nonlinear_arith)
                            requires
                                row < count,
                        ;
                    }
                }
                let sq = ScalarQuantizer::train_residual_rows(
                    data,
                    rows.as_slice(),
                    d,
                    l,
                    subtract,
                );
                let ghost before = trained@;
                trained.push(sq);
                proof {
                    assert(more == lists.push(l as int));
                    assert forall|i: int|
                        0 <= i < trained@.len() implies crate::sq::is_residual_quantizer(
                        data@,
                        crate::lists::rows_of(assignments@, more[i], assignments@.len()),
                        d,
                        more[i] as usize,
                        *subtract,
                        #[trigger] trained@[i],
                    ) by {
                        if i < before.len() {
                            assert(trained@[i] == before[i]);
                            assert(more[i] == lists[i]);
                        }
                    }
                }
            } else {
                assert(more == lists);
            }
            l = l + 1;
        }
        assert forall|i: int| 0 <= i < trained@.len() implies (#[trigger] trained@[i]).well_formed()
            && trained@[i].d == d by {}
        let (mins, maxs) = pooled_bounds(&trained, d);
        self.sq = ScalarQuantizer::with_dimension_bounds(d, mins, maxs);
        self.list_sqs = repeated(&self.sq, nlist);
        assert(pools(self.sq, trained@));
    }

    /// The quantizer of a list; the common one if the list has none.
    pub fn list_sq(&self, list_id: usize) -> (sq: &ScalarQuantizer)
        ensures
            *sq == (if list_id < self.list_sqs@.len() {
                self.list_sqs@[list_id as int]
            } else {
                self.sq
            }),
    {
        if list_id < self.list_sqs.len() {
            &self.list_sqs[list_id]
        } else {
            &self.sq
        }
    }

    /// The centroid of a list.
    pub fn list_centroid(&self, list_id: usize) -> (centroid: &[u32])
        requires
            (list_id + 1) * self.d <= self.quantizer_centroids@.len(),
        ensures
            centroid@ == self.quantizer_centroids@.subrange(
                list_id * self.d,
                (list_id + 1) * self.d,
            ),
    {
        let total: usize = self.quantizer_centroids.len();
        proof {
            assert((list_id + 1) * self.d == list_id * self.d + self.d && 0 <= list_id * self.d)
                by (nonlinear_arith);
        }
        vstd::slice::slice_subrange(
            self.quantizer_centroids.as_slice(),
            list_id * self.d,
            list_id * self.d + self.d,
        )
    }

    /// Bytes of one code.
    pub fn code_size(&self) -> (size: usize)
        ensures
            size == self.sq.d,
    {
        self.sq.code_size()
    }

    /// Appends encoded rows to the lists they are assigned to, in row order.
    pub fn add(&mut self, assignments: &[usize], ids: &[i64], codes: &[u8])
        requires
            old(self).well_formed(),
            ids@.len() == assignments@.len(),
            codes@.len() == assignments@.len() * old(self).d,
            forall|i: int|
                0 <= i < assignments@.len() ==> #[trigger] assignments@[i] < old(self).nlist,
        ensures
            final(self).well_formed(),
            final(self).d == old(self).d,
            final(self).nlist == old(self).nlist,
            final(self).metric == old(self).metric,
            final(self).quantizer_centroids == old(self).quantizer_centroids,
            final(self).approximate_assignment == old(self).approximate_assignment,
            final(self).sq == old(self).sq,
            final(self).list_sqs == old(self).list_sqs,
            forall|l: int|
                0 <= l < old(self).nlist ==> (#[trigger] final(self).ids@[l])@ == old(self).ids@[l]@
                    + crate::lists::gathered_rows(
                    ids@,
                    crate::lists::rows_of(assignments@, l, assignments@.len()),
                    1,
                ),
            forall|l: int|
                0 <= l < old(self).nlist ==> (#[trigger] final(self).codes@[l])@
                    == old(self).codes@[l]@ + crate::lists::gathered_rows(
                    codes@,
                    crate::lists::rows_of(assignments@, l, assignments@.len()),
                    old(self).d as nat,
                ),
    {
        let width: usize = self.d;
        let rows: usize = assignments.len();
        let groups = group_rows(assignments, self.nlist);
        proof {
            let n = rows as nat;
            assert forall|l: int, i: int|
                0 <= l < groups@.len() && 0 <= i < groups@[l]@.len() implies (
            #[trigger] groups@[l]@[i] + 1) * width <= codes@.len() && (groups@[l]@[i] + 1) * 1
                <= ids@.len() by {
                assert(groups@[l]@ == crate::lists::rows_of(assignments@, l, n));
                crate::matching::lemma_picked(crate::lists::assigned_to(assignments@, l), n);
                let row = groups@[l]@[i] as int;
                assert((row + 1) * width <= n * width) by (nonlinear_arith)
                    requires
                        row < n,
                ;
            }
        }
        append_to_lists(&mut self.ids, ids, &groups, 1);
        append_to_lists(&mut self.codes, codes, &groups, width);
        proof {
            assert forall|l: int| 0 <= l < self.nlist implies (#[trigger] self.codes@[l])@.len()
                == self.ids@[l]@.len() * self.d by {
                let rows = groups@[l]@;
                assert forall|i: int| 0 <= i < rows.len() implies (#[trigger] rows[i] + 1) * width
                    <= codes@.len() && (rows[i] + 1) * 1 <= ids@.len() by {
                    assert((groups@[l]@[i] + 1) * width <= codes@.len());
                }
                crate::lists::lemma_gathered_len(codes@, rows, width as nat);
                crate::lists::lemma_gathered_len(ids@, rows, 1);
                let old_count = old(self).ids@[l]@.len();
                assert(old(self).codes@[l]@.len() == old_count * width);
                assert(self.ids@[l]@.len() == old_count + rows.len());
                assert((old_count + rows.len()) * width == old_count * width + rows.len() * width)
                    by (nonlinear_arith);
            }
        }
    }

    /// Number of rows.
    pub fn total_vectors(&self) -> (total: usize)
        requires
            crate::lists::count_rows(self.ids@, self.ids@.len()) <= usize::MAX,
        ensures
            total == crate::lists::count_rows(self.ids@, self.ids@.len()),
    {
        total_rows(&self.ids)
    }

    /// Searches without a filter.
    pub fn search(
        &self,
        probes: &Vec<Vec<usize>>,
        distances: &Vec<Vec<Vec<u32>>>,
        k: usize,
    ) -> (out: (Vec<i64>, Vec<u32>))
        requires
            k * 2 + 2 <= usize::MAX,
            probes@.len() * k <= usize::MAX,
            distances@.len() == probes@.len(),
            forall|q: int|
                0 <= q < probes@.len() ==> crate::list_search::probes_fit(
                    self.ids@,
                    (#[trigger] probes@[q])@,
                    distances@[q]@,
                    None::<&HashSet<i64>>,
                ),
        ensures
            out.0@.len() == probes@.len() * k,
            out.1@.len() == probes@.len() * k,
            forall|q: int|
                0 <= q < probes@.len() ==> crate::session::answers(
                    crate::list_search::probed_rows(
                        self.ids@,
                        (#[trigger] probes@[q])@,
                        distances@[q]@,
                        None::<&HashSet<i64>>,
                        probes@[q]@.len(),
                    ),
                    out.0@,
                    out.1@,
                    q,
                    k,
                ),
            forall|q: int|
                0 <= q < probes@.len() ==> crate::scan::lists_sorted(
                    crate::list_search::probed_items(
                        self.ids@,
                        (#[trigger] probes@[q])@,
                        distances@[q]@,
                        None::<&HashSet<i64>>,
                        k,
                    ),
                    out.0@,
                    out.1@,
                    q,
                    k,
                ),
    {
        self.search_with_filter(probes, distances, k, None::<&HashSet<i64>>)
    }

    /// The nearest rows of the probed lists that pass the filter, given the
    /// distances of the lists' rows: one row of `k` places per query.
    pub fn search_with_filter<F: RowIdFilter>(
        &self,
        probes: &Vec<Vec<usize>>,
        distances: &Vec<Vec<Vec<u32>>>,
        k: usize,
        filter: Option<&F>,
    ) -> (out: (Vec<i64>, Vec<u32>))
        requires
            k * 2 + 2 <= usize::MAX,
            probes@.len() * k <= usize::MAX,
            distances@.len() == probes@.len(),
            forall|q: int|
                0 <= q < probes@.len() ==> crate::list_search::probes_fit(
                    self.ids@,
                    (#[trigger] probes@[q])@,
                    distances@[q]@,
                    filter,
                ),
        ensures
            out.0@.len() == probes@.len() * k,
            out.1@.len() == probes@.len() * k,
            forall|q: int|
                0 <= q < probes@.len() ==> crate::session::answers(
                    crate::list_search::probed_rows(
                        self.ids@,
                        (#[trigger] probes@[q])@,
                        distances@[q]@,
                        filter,
                        probes@[q]@.len(),
                    ),
                    out.0@,
                    out.1@,
                    q,
                    k,
                ),
            forall|q: int|
                0 <= q < probes@.len() ==> crate::scan::lists_sorted(
                    crate::list_search::probed_items(
                        self.ids@,
                        (#[trigger] probes@[q])@,
                        distances@[q]@,
                        filter,
                        k,
                    ),
                    out.0@,
                    out.1@,
                    q,
                    k,
                ),
    {
        search_lists(&self.ids, probes, distances, k, filter)
    }
}

} // verus!
