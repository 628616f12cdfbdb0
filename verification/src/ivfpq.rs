//! Inverted lists of product-quantized rows: adding, merging and searching.
use crate::distance::{copy_numbers, equal_numbers, MetricType};
use crate::filter::RowIdFilter;
use crate::list_search::search_lists;
use crate::lists::{append_to_lists, empty_lists, group_rows, total_rows};
use crate::opq::OPQMatrix;
use crate::pq::ProductQuantizer;
use crate::pq_tables::{codebook_table, combine};
use crate::scan::{assemble_results, scan_rows};
use crate::topk::{Neighbor, TopKHeap};
use std::collections::HashSet;
use vstd::multiset::Multiset;
use vstd::prelude::*;

verus! {

/// Rows that are assigned and encoded together.
pub const ADD_BATCH_SIZE: usize = 32768;

/// An index whose rows are product-quantized residuals or vectors.
#[derive(Debug)]
pub struct IVFPQIndex {
    pub d: usize,
    pub nlist: usize,
    pub metric: MetricType,
    pub by_residual: bool,
    pub quantizer_centroids: Vec<u32>,
    pub pq: ProductQuantizer,
    pub opq: Option<OPQMatrix>,
    pub ids: Vec<Vec<i64>>,
    pub codes: Vec<Vec<u8>>,
    /// Distance tables per list; empty when there are none.
    pub precomputed_table: Vec<u32>,
    /// Block-packed four-bit codes per list; empty when there are none.
    pub fastscan_codes: Vec<Vec<u8>>,
}

/// Why two indexes cannot be merged.
#[derive(Debug, Clone, Copy, PartialEq, Eq, Structural)]
pub enum MergeError {
    Dimension { ours: usize, theirs: usize },
    ListCount { ours: usize, theirs: usize },
    Metric { our_metric: MetricType, their_metric: MetricType },
    ResidualMode { our_mode: bool, their_mode: bool },
    PqLayout,
    OpqConfiguration,
    OpqLayout { our_d: usize, our_m: usize, their_d: usize, their_m: usize },
    OpqRotation,
    CoarseCentroids,
    PqCodebooks,
}

/// The quantizers have the same shape.
pub open spec fn same_pq_layout(a: ProductQuantizer, b: ProductQuantizer) -> bool {
    &&& a.spec_d() == b.spec_d()
    &&& a.spec_m() == b.spec_m()
    &&& a.spec_nbits() == b.spec_nbits()
    &&& a.spec_dsub() == b.spec_dsub()
    &&& a.spec_ksub() == b.spec_ksub()
}

/// The first difference that keeps two indexes from being merged.
pub open spec fn merge_problem(a: IVFPQIndex, b: IVFPQIndex) -> Option<MergeError> {
    if a.d != b.d {
        Some(MergeError::Dimension { ours: a.d, theirs: b.d })
    } else if a.nlist != b.nlist {
        Some(MergeError::ListCount { ours: a.nlist, theirs: b.nlist })
    } else if a.metric != b.metric {
        Some(MergeError::Metric { our_metric: a.metric, their_metric: b.metric })
    } else if a.by_residual != b.by_residual {
        Some(MergeError::ResidualMode { our_mode: a.by_residual, their_mode: b.by_residual })
    } else if !same_pq_layout(a.pq, b.pq) {
        Some(MergeError::PqLayout)
    } else if a.opq is Some != b.opq is Some {
        Some(MergeError::OpqConfiguration)
    } else if a.opq is Some && (a.opq->0.d != b.opq->0.d || a.opq->0.m != b.opq->0.m) {
        Some(
            MergeError::OpqLayout {
                our_d: a.opq->0.d,
                our_m: a.opq->0.m,
                their_d: b.opq->0.d,
                their_m: b.opq->0.m,
            },
        )
    } else if a.opq is Some && !crate::distance::same_numbers(
        a.opq->0.rotation@,
        b.opq->0.rotation@,
    ) {
        Some(MergeError::OpqRotation)
    } else if !crate::distance::same_numbers(
        a.quantizer_centroids@,
        b.quantizer_centroids@,
    ) {
        Some(MergeError::CoarseCentroids)
    } else if !crate::distance::same_numbers(a.pq.codebook(), b.pq.codebook()) {
        Some(MergeError::PqCodebooks)
    } else {
        None
    }
}

/// `nlist` for a wanted number of rows per list.
pub open spec fn partition_count(n: int, target: int) -> int {
    let share = n / (if target < 1 {
        1
    } else {
        target
    });
    if share < 1 {
        1
    } else if share > 65536 {
        65536
    } else {
        share
    }
}

/// The table of a list: the norms of the centroids combined with their steps
/// with the list's centroid.
pub open spec fn list_table<F: Fn(u32, u32, u32) -> u32, G: Fn(u32, u32) -> u32>(
    f: F,
    g: G,
    pq: ProductQuantizer,
    centroid: Seq<u32>,
) -> Seq<u32> {
    Seq::new(
        (pq.spec_m() * pq.spec_ksub()) as nat,
        |at: int|
            crate::pq_tables::paired(
                g,
                pq.norms()[at],
                crate::pq_tables::table_entry(f, 0u32, pq, centroid, at),
            ),
    )
}

/// The tables of the first `lists` lists, one after the other.
pub open spec fn list_tables<F: Fn(u32, u32, u32) -> u32, G: Fn(u32, u32) -> u32>(
    f: F,
    g: G,
    pq: ProductQuantizer,
    centroids: Seq<u32>,
    lists: nat,
) -> Seq<u32>
    decreases lists,
{
    if lists == 0 {
        Seq::empty()
    } else {
        let d = pq.spec_d();
        list_tables(f, g, pq, centroids, (lists - 1) as nat) + list_table(
            f,
            g,
            pq,
            centroids.subrange((lists - 1) * d, lists * d),
        )
    }
}

/// The tables of lists have one size, so the table of a list is found from
/// its number alone.
pub proof fn law_each_list_has_its_table<F: Fn(u32, u32, u32) -> u32, G: Fn(u32, u32) -> u32>(
    f: F,
    g: G,
    pq: ProductQuantizer,
    centroids: Seq<u32>,
    lists: nat,
    list: int,
)
    requires
        0 <= list < lists,
    ensures
        list_tables(f, g, pq, centroids, lists).len() == lists * (pq.spec_m() * pq.spec_ksub()),
        list_tables(f, g, pq, centroids, lists).subrange(
            list * (pq.spec_m() * pq.spec_ksub()),
            (list + 1) * (pq.spec_m() * pq.spec_ksub()),
        ) == list_table(
            f,
            g,
            pq,
            centroids.subrange(list * pq.spec_d(), (list + 1) * pq.spec_d()),
        ),
    decreases lists,
{
    let size = (pq.spec_m() * pq.spec_ksub()) as int;
    let last = (lists - 1) as nat;
    let before = list_tables(f, g, pq, centroids, last);
    assert(size >= 0) by (nonlinear_arith)
        requires
            size == pq.spec_m() * pq.spec_ksub(),
    ;
    assert(lists * size == last * size + size) by (nonlinear_arith)
        requires
            lists == last + 1,
    ;
    if last > 0 {
        let other = if list < last {
            list
        } else {
            0
        };
        law_each_list_has_its_table(f, g, pq, centroids, last, other);
    } else {
        assert(before.len() == 0);
        assert(last * size == 0) by (nonlinear_arith)
            requires
                last == 0,
        ;
    }
    let tables = list_tables(f, g, pq, centroids, lists);
    assert((list + 1) * size == list * size + size) by (nonlinear_arith);
    if list < last {
        assert((list + 1) * size <= last * size && 0 <= list * size) by (nonlinear_arith)
            requires
                0 <= list < last,
                size >= 0,
        ;
        assert(tables.subrange(list * size, (list + 1) * size) =~= before.subrange(
            list * size,
            (list + 1) * size,
        ));
    } else {
        assert(tables.subrange(list * size, (list + 1) * size) =~= list_table(
            f,
            g,
            pq,
            centroids.subrange(list * pq.spec_d(), (list + 1) * pq.spec_d()),
        ));
    }
}

/// The packed form of a list's codes; a list without rows has none.
pub open spec fn is_packed_list<P: Fn(&Vec<u8>, usize, usize) -> Vec<u8>>(
    pack: P,
    codes: Vec<u8>,
    count: usize,
    size: usize,
    packed: Vec<u8>,
) -> bool {
    if count == 0 {
        packed@ == Seq::<u8>::empty()
    } else {
        call_ensures(pack, (&codes, count, size), packed)
    }
}

impl IVFPQIndex {
    /// Every list holds one code per id.
    pub open spec fn well_formed(self) -> bool {
        &&& self.pq.well_formed()
        &&& self.pq.spec_d() == self.d
        &&& self.ids@.len() == self.nlist
        &&& self.codes@.len() == self.nlist
        &&& forall|l: int|
            0 <= l < self.nlist ==> (#[trigger] self.codes@[l])@.len() == self.ids@[l]@.len()
                * self.pq.spec_code_size()
    }

    /// No list holds a row.
    pub open spec fn is_empty_index(self) -> bool {
        forall|l: int| 0 <= l < self.nlist ==> (#[trigger] self.ids@[l])@.len() == 0
    }

    pub fn new(d: usize, nlist: usize, m: usize, metric: MetricType, use_opq: bool) -> (index: Self)
        requires
            0 < m < usize::MAX,
            d % m == 0,
            use_opq ==> d * d <= usize::MAX,
        ensures
            index.well_formed(),
            index.is_empty_index(),
            index.d == d,
            index.nlist == nlist,
            index.metric == metric,
            index.by_residual == (metric == MetricType::L2),
            index.pq.spec_m() == m,
            index.pq.spec_nbits() == 8,
            forall|i: int| 0 <= i <= m ==> #[trigger] index.pq.offsets()[i] == i * (d / m),
            index.pq.codebook() == Seq::<u32>::empty(),
            index.pq.norms() == Seq::<u32>::empty(),
            index.opq is Some == use_opq,
            index.opq matches Some(opq) ==> opq.is_untrained(d, m),
            index.quantizer_centroids@ == Seq::<u32>::empty(),
            index.precomputed_table@ == Seq::<u32>::empty(),
            index.fastscan_codes@ == Seq::<Vec<u8>>::empty(),
    {
        Self::with_nbits(d, nlist, m, 8, metric, use_opq)
    }

    /// Four-bit codes need an even number of chunks.
    pub fn with_nbits(
        d: usize,
        nlist: usize,
        m: usize,
        nbits: usize,
        metric: MetricType,
        use_opq: bool,
    ) -> (index: Self)
        requires
            0 < m < usize::MAX,
            d % m == 0,
            nbits == 4 || nbits == 8,
            nbits == 4 ==> m % 2 == 0,
            use_opq ==> d * d <= usize::MAX,
        ensures
            index.well_formed(),
            index.is_empty_index(),
            index.d == d,
            index.nlist == nlist,
            index.metric == metric,
            index.by_residual == (metric == MetricType::L2),
            index.quantizer_centroids@ == Seq::<u32>::empty(),
            index.pq.spec_m() == m,
            index.pq.spec_nbits() == nbits,
            forall|i: int| 0 <= i <= m ==> #[trigger] index.pq.offsets()[i] == i * (d / m),
            index.pq.codebook() == Seq::<u32>::empty(),
            index.pq.norms() == Seq::<u32>::empty(),
            index.opq is Some == use_opq,
            index.opq matches Some(opq) ==> opq.is_untrained(d, m),
            index.precomputed_table@ == Seq::<u32>::empty(),
            index.fastscan_codes@ == Seq::<Vec<u8>>::empty(),
    {
        let by_residual: bool = match metric {
            MetricType::L2 => true,
            _ => false,
        };
        let pq = ProductQuantizer::with_nbits(d, m, nbits);
        let opq = if use_opq {
            Some(OPQMatrix::new(d, m))
        } else {
            None
        };
        proof {
            assert(0 * pq.spec_code_size() == 0) by (nonlinear_arith);
        }
        IVFPQIndex {
            d,
            nlist,
            metric,
            by_residual,
            quantizer_centroids: Vec::new(),
            pq,
            opq,
            ids: empty_lists(nlist),
            codes: empty_lists(nlist),
            precomputed_table: Vec::new(),
            fastscan_codes: Vec::new(),
        }
    }

    /// As many lists as hold about `target_partition_size` of `n` rows each.
    pub fn with_target_partition_size(
        d: usize,
        n: usize,
        target_partition_size: usize,
        m: usize,
        metric: MetricType,
        use_opq: bool,
    ) -> (index: Self)
        requires
            0 < m < usize::MAX,
            d % m == 0,
            use_opq ==> d * d <= usize::MAX,
        ensures
            index.well_formed(),
            index.is_empty_index(),
            index.d == d,
            index.nlist == partition_count(n as int, target_partition_size as int),
            index.metric == metric,
            index.by_residual == (metric == MetricType::L2),
            index.pq.spec_m() == m,
            index.pq.spec_nbits() == 8,
            forall|i: int| 0 <= i <= m ==> #[trigger] index.pq.offsets()[i] == i * (d / m),
            index.pq.codebook() == Seq::<u32>::empty(),
            index.pq.norms() == Seq::<u32>::empty(),
            index.opq is Some == use_opq,
            index.opq matches Some(opq) ==> opq.is_untrained(d, m),
            index.quantizer_centroids@ == Seq::<u32>::empty(),
            index.precomputed_table@ == Seq::<u32>::empty(),
            index.fastscan_codes@ == Seq::<Vec<u8>>::empty(),
    {
        let target: usize = if target_partition_size < 1 {
            1
        } else {
            target_partition_size
        };
        let share: usize = n / target;
        let nlist: usize = if share < 1 {
            1
        } else if share > 65536 {
            65536
        } else {
            share
        };
        Self::new(d, nlist, m, metric, use_opq)
    }

    /// An empty index with the training state of another one.
    pub fn from_trained(trained: &IVFPQIndex) -> (index: Self)
        requires
            trained.well_formed(),
        ensures
            index.well_formed(),
            index.is_empty_index(),
            index.d == trained.d,
            index.nlist == trained.nlist,
            index.metric == trained.metric,
            index.by_residual == trained.by_residual,
            index.quantizer_centroids@ == trained.quantizer_centroids@,
            same_pq_layout(index.pq, trained.pq),
            index.pq.offsets() == trained.pq.offsets(),
            index.pq.codebook() == trained.pq.codebook(),
            index.pq.norms() == trained.pq.norms(),
            index.opq is Some == trained.opq is Some,
            index.opq matches Some(opq) ==> {
                &&& opq.d == trained.opq->0.d
                &&& opq.m == trained.opq->0.m
                &&& opq.niter == 0
                &&& opq.niter_pq == 0
                &&& opq.niter_pq_0 == 0
                &&& opq.max_train_points == 0
                &&& opq.rotation@ == trained.opq->0.rotation@
                &&& opq.is_trained
            },
            index.precomputed_table@ == Seq::<u32>::empty(),
            index.fastscan_codes@ == Seq::<Vec<u8>>::empty(),
    {
        let opq = match &trained.opq {
            Some(opq) => Some(opq.trained_copy()),
            None => None,
        };
        proof {
            assert(0 * trained.pq.spec_code_size() == 0) by (nonlinear_arith);
        }
        IVFPQIndex {
            d: trained.d,
            nlist: trained.nlist,
            metric: trained.metric,
            by_residual: trained.by_residual,
            quantizer_centroids: copy_numbers(&trained.quantizer_centroids),
            pq: trained.pq.duplicate(),
            opq,
            ids: empty_lists(trained.nlist),
            codes: empty_lists(trained.nlist),
            precomputed_table: Vec::new(),
            fastscan_codes: Vec::new(),
        }
    }

    /// Appends encoded rows to the lists they are assigned to, in row order,
    /// and drops the structures derived from the old rows.
    pub fn add_batch(&mut self, assignments: &[usize], ids: &[i64], codes: &[u8])
        requires
            old(self).well_formed(),
            ids@.len() == assignments@.len(),
            codes@.len() == assignments@.len() * old(self).pq.spec_code_size(),
            forall|i: int|
                0 <= i < assignments@.len() ==> #[trigger] assignments@[i] < old(self).nlist,
        ensures
            final(self).well_formed(),
            final(self).d == old(self).d,
            final(self).nlist == old(self).nlist,
            final(self).metric == old(self).metric,
            final(self).by_residual == old(self).by_residual,
            final(self).quantizer_centroids == old(self).quantizer_centroids,
            final(self).pq == old(self).pq,
            final(self).opq == old(self).opq,
            forall|l: int|
                0 <= l < old(self).nlist ==> (#[trigger] final(self).ids@[l])@ == old(self).ids@[l]@
                    + crate::lists::gathered_rows(
                    ids@,
                    crate::lists::rows_of(assignments@, l, assignments@.len()),
                    1,
                ),
            forall|l: int|
                0 <= l < old(self).nlist ==> (#[trigger] final(self).codes@[l])@
                    == old(self).codes@[l]@ + crate::lists::gathered_rows(
                    codes@,
                    crate::lists::rows_of(assignments@, l, assignments@.len()),
                    old(self).pq.spec_code_size() as nat,
                ),
            final(self).precomputed_table@ == Seq::<u32>::empty(),
            final(self).fastscan_codes@ == Seq::<Vec<u8>>::empty(),
    {
        let code_size: usize = self.pq.code_size();
        let rows: usize = assignments.len();
        let groups = group_rows(assignments, self.nlist);
        proof {
            let n = rows as nat;
            assert forall|l: int, i: int|
                0 <= l < groups@.len() && 0 <= i < groups@[l]@.len() implies (
            #[trigger] groups@[l]@[i] + 1) * code_size <= codes@.len() && (groups@[l]@[i] + 1) * 1
                <= ids@.len() by {
                assert(groups@[l]@ == crate::lists::rows_of(assignments@, l, n));
                crate::matching::lemma_picked(crate::lists::assigned_to(assignments@, l), n);
                let row = groups@[l]@[i] as int;
                assert((row + 1) * code_size <= n * code_size) by (nonlinear_arith)
                    requires
                        row < n,
                ;
            }
        }
        append_to_lists(&mut self.ids, ids, &groups, 1);
        append_to_lists(&mut self.codes, codes, &groups, code_size);
        proof {
            assert forall|l: int| 0 <= l < self.nlist implies (#[trigger] self.codes@[l])@.len()
                == self.ids@[l]@.len() * self.pq.spec_code_size() by {
                let rows = groups@[l]@;
                assert forall|i: int| 0 <= i < rows.len() implies (#[trigger] rows[i] + 1)
                    * code_size <= codes@.len() && (rows[i] + 1) * 1 <= ids@.len() by {
                    assert((groups@[l]@[i] + 1) * code_size <= codes@.len());
                }
                crate::lists::lemma_gathered_len(codes@, rows, code_size as nat);
                crate::lists::lemma_gathered_len(ids@, rows, 1);
                let old_count = old(self).ids@[l]@.len();
                assert(old(self).codes@[l]@.len() == old_count * code_size);
                assert(self.ids@[l]@.len() == old_count + rows.len());
                assert((old_count + rows.len()) * code_size == old_count * code_size + rows.len()
                    * code_size) by (nonlinear_arith);
            }
        }
        self.fastscan_codes.clear();
        self.precomputed_table.clear();
    }

    /// Number of rows.
    pub fn total_vectors(&self) -> (total: usize)
        requires
            crate::lists::count_rows(self.ids@, self.ids@.len()) <= usize::MAX,
        ensures
            total == crate::lists::count_rows(self.ids@, self.ids@.len()),
    {
        total_rows(&self.ids)
    }

    /// Computes the table of every list, when rows are stored as residuals
    /// under the squared distance: the entry of a centroid combines its norm
    /// with its steps with the list's centroid.
    pub fn build_precomputed_table<F: Fn(u32, u32, u32) -> u32, G: Fn(u32, u32) -> u32>(
        &mut self,
        f: &F,
        g: &G,
    )
        requires
            old(self).well_formed(),
            old(self).metric == MetricType::L2 && old(self).by_residual
                ==> crate::pq_tables::is_trained(old(self).pq) && old(self).pq.norms().len()
                == old(self).pq.spec_m() * old(self).pq.spec_ksub()
                && old(self).quantizer_centroids@.len() == old(self).nlist * old(self).d,
            crate::pq_tables::is_step(*f),
            crate::pq_tables::is_pairing(*g),
        ensures
            final(self).well_formed(),
            final(self).precomputed_table@ == (if old(self).metric == MetricType::L2
                && old(self).by_residual {
                list_tables(
                    *f,
                    *g,
                    old(self).pq,
                    old(self).quantizer_centroids@,
                    old(self).nlist as nat,
                )
            } else {
                old(self).precomputed_table@
            }),
            final(self).fastscan_codes@ == old(self).fastscan_codes@,
            final(self).ids == old(self).ids,
            final(self).codes == old(self).codes,
            final(self).d == old(self).d,
            final(self).nlist == old(self).nlist,
            final(self).metric == old(self).metric,
            final(self).by_residual == old(self).by_residual,
            final(self).quantizer_centroids == old(self).quantizer_centroids,
            final(self).pq == old(self).pq,
            final(self).opq == old(self).opq,
    {
        let residual_l2: bool = match self.metric {
            MetricType::L2 => self.by_residual,
            _ => false,
        };
        if !residual_l2 {
            return;
        }
        let d: usize = self.d;
        let nlist: usize = self.nlist;
        let centroids_len: usize = self.quantizer_centroids.len();
        let mut tables: Vec<u32> = Vec::new();
        let mut list: usize = 0;
        while list < nlist
            invariant
                self.well_formed(),
                crate::pq_tables::is_trained(self.pq),
                self.pq.norms().len() == self.pq.spec_m() * self.pq.spec_ksub(),
                crate::pq_tables::is_step(*f),
                crate::pq_tables::is_pairing(*g),
                d == self.d,
                nlist == self.nlist,
                centroids_len == self.quantizer_centroids@.len(),
                centroids_len == nlist * d,
                list <= nlist,
                tables@ == list_tables(*f, *g, self.pq, self.quantizer_centroids@, list as nat),
            decreases nlist - list,
        {
            assert(0 <= list * d && list * d + d == (list + 1) * d && (list + 1) * d <= nlist * d)
                by (nonlinear_arith)
                requires
                    list < nlist,
            ;
            let centroid = vstd::slice::slice_subrange(
                self.quantizer_centroids.as_slice(),
                list * d,
                list * d + d,
            );
            let products = codebook_table(&self.pq, centroid, 0u32, f);
            let mut table = combine(self.pq.centroid_norms(), products.as_slice(), g);
            proof {
                assert(table@ =~= list_table(*f, *g, self.pq, centroid@));
            }
            tables.append(&mut table);
            list = list + 1;
        }
        self.precomputed_table = tables;
    }

    /// Packs the four-bit codes of every list for fast scans.
    pub fn build_search_structures<P: Fn(&Vec<u8>, usize, usize) -> Vec<u8>>(&mut self, pack: &P)
        requires
            old(self).well_formed(),
            forall|codes: &Vec<u8>, count: usize, size: usize| #[trigger]
                call_requires(*pack, (codes, count, size)),
        ensures
            final(self).well_formed(),
            old(self).pq.spec_nbits() != 4 ==> final(self).fastscan_codes@
                == old(self).fastscan_codes@,
            old(self).pq.spec_nbits() == 4 ==> final(self).fastscan_codes@.len()
                == old(self).nlist && forall|l: int|
                0 <= l < old(self).nlist ==> is_packed_list(
                    *pack,
                    old(self).codes@[l],
                    old(self).ids@[l]@.len() as usize,
                    old(self).pq.spec_code_size() as usize,
                    #[trigger] final(self).fastscan_codes@[l],
                ),
            final(self).precomputed_table@ == old(self).precomputed_table@,
            final(self).ids == old(self).ids,
            final(self).codes == old(self).codes,
            final(self).d == old(self).d,
            final(self).nlist == old(self).nlist,
            final(self).metric == old(self).metric,
            final(self).by_residual == old(self).by_residual,
            final(self).quantizer_centroids == old(self).quantizer_centroids,
            final(self).pq == old(self).pq,
            final(self).opq == old(self).opq,
    {
        if self.pq.nbits() != 4 {
            return;
        }
        let size: usize = self.pq.code_size();
        let mut packed: Vec<Vec<u8>> = Vec::new();
        let mut list: usize = 0;
        while list < self.nlist
            invariant
                self.well_formed(),
                forall|codes: &Vec<u8>, count: usize, size: usize| #[trigger]
                    call_requires(*pack, (codes, count, size)),
                size == self.pq.spec_code_size(),
                list <= self.nlist,
                packed@.len() == list,
                forall|l: int|
                    0 <= l < list ==> is_packed_list(
                        *pack,
                        self.codes@[l],
                        self.ids@[l]@.len() as usize,
                        size,
                        #[trigger] packed@[l],
                    ),
            decreases self.nlist - list,
        {
            let count: usize = self.ids[list].len();
            let entry: Vec<u8> = if count == 0 {
                Vec::new()
            } else {
                pack(&self.codes[list], count, size)
            };
            assert(is_packed_list(*pack, self.codes@[list as int], count, size, entry));
            packed.push(entry);
            list = list + 1;
        }
        self.fastscan_codes = packed;
    }

    /// Whether searches add the coarse distance to table distances.
    pub fn has_precomputed_table(&self) -> (present: bool)
        ensures
            present == (self.precomputed_table@.len() > 0),
    {
        self.precomputed_table.len() > 0
    }

    fn ensure_merge_compatible(&self, other: &IVFPQIndex) -> (result: Result<(), MergeError>)
        ensures
            match result {
                Ok(_) => merge_problem(*self, *other) is None,
                Err(error) => merge_problem(*self, *other) == Some(error),
            },
    {
        if self.d != other.d {
            return Err(MergeError::Dimension { ours: self.d, theirs: other.d });
        }
        if self.nlist != other.nlist {
            return Err(MergeError::ListCount { ours: self.nlist, theirs: other.nlist });
        }
        if self.metric != other.metric {
            return Err(MergeError::Metric { our_metric: self.metric, their_metric: other.metric });
        }
        if self.by_residual != other.by_residual {
            return Err(
                MergeError::ResidualMode { our_mode: self.by_residual, their_mode: other.by_residual },
            );
        }
        if self.pq.d() != other.pq.d() || self.pq.m() != other.pq.m() || self.pq.nbits()
            != other.pq.nbits() || self.pq.dsub() != other.pq.dsub() || self.pq.ksub()
            != other.pq.ksub() {
            return Err(MergeError::PqLayout);
        }
        match (&self.opq, &other.opq) {
            (Some(ours), Some(theirs)) => {
                if ours.d != theirs.d || ours.m != theirs.m {
                    return Err(
                        MergeError::OpqLayout {
                            our_d: ours.d,
                            our_m: ours.m,
                            their_d: theirs.d,
                            their_m: theirs.m,
                        },
                    );
                }
                if !equal_numbers(ours.rotation.as_slice(), theirs.rotation.as_slice()) {
                    return Err(MergeError::OpqRotation);
                }
            },
            (None, None) => {},
            _ => {
                return Err(MergeError::OpqConfiguration);
            },
        }
        if !equal_numbers(
            self.quantizer_centroids.as_slice(),
            other.quantizer_centroids.as_slice(),
        ) {
            return Err(MergeError::CoarseCentroids);
        }
        if !equal_numbers(self.pq.centroids(), other.pq.centroids()) {
            return Err(MergeError::PqCodebooks);
        }
        Ok(())
    }

    /// Appends the rows of an index with identical training state, list by
    /// list; an incompatible index changes nothing.
    pub fn merge_from(&mut self, other: &IVFPQIndex) -> (result: Result<(), MergeError>)
        requires
            old(self).well_formed(),
            other.well_formed(),
        ensures
            match result {
                Ok(_) => {
                    &&& merge_problem(*old(self), *other) is None
                    &&& final(self).well_formed()
                    &&& final(self).d == old(self).d
                    &&& final(self).nlist == old(self).nlist
                    &&& final(self).metric == old(self).metric
                    &&& final(self).by_residual == old(self).by_residual
                    &&& final(self).quantizer_centroids == old(self).quantizer_centroids
                    &&& final(self).pq == old(self).pq
                    &&& final(self).opq == old(self).opq
                    &&& forall|l: int|
                        0 <= l < old(self).nlist ==> (#[trigger] final(self).ids@[l])@
                            == old(self).ids@[l]@ + other.ids@[l]@
                    &&& forall|l: int|
                        0 <= l < old(self).nlist ==> (#[trigger] final(self).codes@[l])@
                            == old(self).codes@[l]@ + other.codes@[l]@
                    &&& final(self).precomputed_table@ == Seq::<u32>::empty()
                    &&& final(self).fastscan_codes@ == Seq::<Vec<u8>>::empty()
                },
                Err(error) => merge_problem(*old(self), *other) == Some(error) && *final(self)
                    == *old(self),
            },
    {
        match self.ensure_merge_compatible(other) {
            Ok(_) => {},
            Err(error) => {
                return Err(error);
            },
        }
        append_each(&mut self.ids, &other.ids);
        append_each(&mut self.codes, &other.codes);
        proof {
            assert(self.pq.spec_code_size() == other.pq.spec_code_size());
            assert forall|l: int| 0 <= l < self.nlist implies (#[trigger] self.codes@[l])@.len()
                == self.ids@[l]@.len() * self.pq.spec_code_size() by {
                let a = old(self).ids@[l]@.len() as int;
                let b = other.ids@[l]@.len() as int;
                let size = self.pq.spec_code_size();
                assert(old(self).codes@[l]@.len() == a * size);
                assert(other.codes@[l]@.len() == b * size);
                assert(self.ids@[l]@.len() == a + b);
                assert((a + b) * size == a * size + b * size) by (nonlinear_arith);
            }
        }
        self.fastscan_codes.clear();
        self.precomputed_table.clear();
        Ok(())
    }
}

/// An index that took in another holds the rows of both.
pub proof fn law_merging_adds_rows(
    merged: Seq<Vec<i64>>,
    ours: Seq<Vec<i64>>,
    theirs: Seq<Vec<i64>>,
    lists: nat,
)
    requires
        lists <= merged.len(),
        forall|l: int| 0 <= l < lists ==> (#[trigger] merged[l])@ == ours[l]@ + theirs[l]@,
    ensures
        crate::lists::count_rows(merged, lists) == crate::lists::count_rows(ours, lists)
            + crate::lists::count_rows(theirs, lists),
    decreases lists,
{
    if lists > 0 {
        law_merging_adds_rows(merged, ours, theirs, (lists - 1) as nat);
        assert(merged[lists - 1]@ == ours[lists - 1]@ + theirs[lists - 1]@);
    }
}

/// Appends to each list the list of the same number.
fn append_each<T: Copy>(lists: &mut Vec<Vec<T>>, more: &Vec<Vec<T>>)
    requires
        old(lists)@.len() == more@.len(),
    ensures
        final(lists)@.len() == old(lists)@.len(),
        forall|l: int|
            0 <= l < final(lists)@.len() ==> (#[trigger] final(lists)@[l])@ == old(lists)@[l]@
                + more@[l]@,
{
    let mut l: usize = 0;
    while l < more.len()
        invariant
            l <= more@.len(),
            lists@.len() == more@.len(),
            lists@.len() == old(lists)@.len(),
            forall|k: int|
                0 <= k < l ==> (#[trigger] lists@[k])@ == old(lists)@[k]@ + more@[k]@,
            forall|k: int| l <= k < lists@.len() ==> (#[trigger] lists@[k]) == old(lists)@[k],
        decreases more@.len() - l,
    {
        let mut list: Vec<T> = Vec::new();
        std::mem::swap(&mut list, &mut lists[l]);
        let extra = &more[l];
        let mut i: usize = 0;
        while i < extra.len()
            invariant
                l < more@.len(),
                extra == more@[l as int],
                i <= extra@.len(),
                list@ == old(lists)@[l as int]@ + extra@.take(i as int),
            decreases extra@.len() - i,
        {
            list.push(extra[i]);
            assert(extra@.take(i + 1) =~= extra@.take(i as int).push(extra@[i as int]));
            i = i + 1;
        }
        assert(extra@.take(extra@.len() as int) =~= extra@);
        std::mem::swap(&mut list, &mut lists[l]);
        l = l + 1;
    }
}

/// The batches in which `n` rows are added.
pub fn add_batches(n: usize) -> (batches: Vec<(usize, usize)>)
    ensures
        batches@.len() == crate::arith::ceil_div(n as int, ADD_BATCH_SIZE as int),
        forall|b: int|
            0 <= b < batches@.len() ==> {
                &&& (#[trigger] batches@[b]).0 == b * ADD_BATCH_SIZE
                &&& batches@[b].1 == (if b * ADD_BATCH_SIZE + ADD_BATCH_SIZE <= n {
                    (b + 1) * ADD_BATCH_SIZE
                } else {
                    n as int
                })
            },
{
    let mut batches: Vec<(usize, usize)> = Vec::new();
    let mut offset: usize = 0;
    while offset < n
        invariant
            offset <= n,
            offset == n || offset == batches@.len() * ADD_BATCH_SIZE,
            offset == n ==> batches@.len() == crate::arith::ceil_div(
                n as int,
                ADD_BATCH_SIZE as int,
            ),
            forall|b: int|
                0 <= b < batches@.len() ==> {
                    &&& (#[trigger] batches@[b]).0 == b * ADD_BATCH_SIZE
                    &&& batches@[b].1 == (if b * ADD_BATCH_SIZE + ADD_BATCH_SIZE <= n {
                        (b + 1) * ADD_BATCH_SIZE
                    } else {
                        n as int
                    })
                },
        decreases n - offset,
    {
        let rows: usize = if n - offset < ADD_BATCH_SIZE {
            n - offset
        } else {
            ADD_BATCH_SIZE
        };
        batches.push((offset, offset + rows));
        offset = offset + rows;
    }
    batches
}

impl IVFPQIndex {
    /// Searches without a filter.
    pub fn search(
        &self,
        probes: &Vec<Vec<usize>>,
        distances: &Vec<Vec<Vec<u32>>>,
        k: usize,
    ) -> (out: (Vec<i64>, Vec<u32>))
        requires
            self.well_formed(),
            k * 2 + 2 <= usize::MAX,
            probes@.len() * k <= usize::MAX,
            distances@.len() == probes@.len(),
            forall|q: int|
                0 <= q < probes@.len() ==> crate::list_search::probes_fit::<HashSet<i64>>(
                    self.ids@,
                    (#[trigger] probes@[q])@,
                    distances@[q]@,
                    None,
                ),
        ensures
            out.0@.len() == probes@.len() * k,
            out.1@.len() == probes@.len() * k,
            forall|q: int|
                0 <= q < probes@.len() ==> crate::session::answers(
                    crate::list_search::probed_rows::<HashSet<i64>>(
                        self.ids@,
                        (#[trigger] probes@[q])@,
                        distances@[q]@,
                        None,
                        probes@[q]@.len(),
                    ),
                    out.0@,
                    out.1@,
                    q,
                    k,
                ),
            forall|q: int|
                0 <= q < probes@.len() ==> crate::scan::lists_sorted(
                    crate::list_search::probed_items::<HashSet<i64>>(
                        self.ids@,
                        (#[trigger] probes@[q])@,
                        distances@[q]@,
                        None,
                        k,
                    ),
                    out.0@,
                    out.1@,
                    q,
                    k,
                ),
    {
        self.search_with_filter::<HashSet<i64>>(probes, distances, k, None)
    }

    /// The nearest rows of the probed lists that pass the filter, for each
    /// query, given the distances of the lists' rows.
    pub fn search_with_filter<F: RowIdFilter>(
        &self,
        probes: &Vec<Vec<usize>>,
        distances: &Vec<Vec<Vec<u32>>>,
        k: usize,
        filter: Option<&F>,
    ) -> (out: (Vec<i64>, Vec<u32>))
        requires
            self.well_formed(),
            k * 2 + 2 <= usize::MAX,
            probes@.len() * k <= usize::MAX,
            distances@.len() == probes@.len(),
            forall|q: int|
                0 <= q < probes@.len() ==> crate::list_search::probes_fit(
                    self.ids@,
                    (#[trigger] probes@[q])@,
                    distances@[q]@,
                    filter,
                ),
        ensures
            out.0@.len() == probes@.len() * k,
            out.1@.len() == probes@.len() * k,
            forall|q: int|
                0 <= q < probes@.len() ==> crate::session::answers(
                    crate::list_search::probed_rows(
                        self.ids@,
                        (#[trigger] probes@[q])@,
                        distances@[q]@,
                        filter,
                        probes@[q]@.len(),
                    ),
                    out.0@,
                    out.1@,
                    q,
                    k,
                ),
            forall|q: int|
                0 <= q < probes@.len() ==> crate::scan::lists_sorted(
                    crate::list_search::probed_items(
                        self.ids@,
                        (#[trigger] probes@[q])@,
                        distances@[q]@,
                        filter,
                        k,
                    ),
                    out.0@,
                    out.1@,
                    q,
                    k,
                ),
    {
        search_lists(&self.ids, probes, distances, k, filter)
    }
}

/// Rows scanned by a query's probes of ranks below `upto`, stopping at the
/// budget.
pub open spec fn budget_used(
    lists: Seq<Vec<i64>>,
    probes: Seq<usize>,
    max_codes: int,
    upto: nat,
) -> int
    decreases upto,
{
    if upto == 0 {
        0
    } else {
        let before = budget_used(lists, probes, max_codes, (upto - 1) as nat);
        let count = lists[probes[upto - 1] as int]@.len();
        if before + count <= max_codes {
            before + count
        } else if before <= max_codes {
            max_codes
        } else {
            before
        }
    }
}

/// Rows of the list at rank `rank` that the budget admits.
pub open spec fn budget_share(
    lists: Seq<Vec<i64>>,
    probes: Seq<usize>,
    max_codes: int,
    rank: int,
) -> int {
    budget_used(lists, probes, max_codes, (rank + 1) as nat) - budget_used(
        lists,
        probes,
        max_codes,
        rank as nat,
    )
}

/// A scan never takes more rows than the budget, nor more than a list holds.
pub proof fn law_budget_is_respected(
    lists: Seq<Vec<i64>>,
    probes: Seq<usize>,
    max_codes: int,
    upto: nat,
)
    requires
        max_codes >= 0,
    ensures
        0 <= budget_used(lists, probes, max_codes, upto) <= max_codes,
        forall|r: int|
            0 <= r < upto ==> 0 <= #[trigger] budget_share(lists, probes, max_codes, r)
                <= lists[probes[r] as int]@.len(),
    decreases upto,
{
    if upto > 0 {
        law_budget_is_respected(lists, probes, max_codes, (upto - 1) as nat);
        assert forall|r: int| 0 <= r < upto implies 0 <= #[trigger] budget_share(
            lists,
            probes,
            max_codes,
            r,
        ) <= lists[probes[r] as int]@.len() by {
            if r < upto - 1 {
                assert(0 <= budget_share(lists, probes, max_codes, r)
                    <= lists[probes[r] as int]@.len());
            }
        }
    }
}

/// The first `count` rows of a list.
pub open spec fn leading_rows(ids: Seq<i64>, distances: Seq<u32>, count: int) -> Seq<Neighbor> {
    crate::scan::neighbors_at(ids, distances, crate::rq::identity_order(count as nat))
}

/// What a query is offered within the budget.
pub open spec fn budgeted_rows(
    lists: Seq<Vec<i64>>,
    probes: Seq<usize>,
    distances: Seq<Vec<u32>>,
    max_codes: int,
    upto: nat,
) -> Multiset<Neighbor>
    decreases upto,
{
    if upto == 0 {
        Multiset::empty()
    } else {
        let r = upto - 1;
        budgeted_rows(lists, probes, distances, max_codes, r as nat).add(
            leading_rows(
                lists[probes[r] as int]@,
                distances[r]@,
                budget_share(lists, probes, max_codes, r),
            ).to_multiset(),
        )
    }
}

/// The same rows in the order in which they are offered.
pub open spec fn budgeted_sequence(
    lists: Seq<Vec<i64>>,
    probes: Seq<usize>,
    distances: Seq<Vec<u32>>,
    max_codes: int,
    upto: nat,
) -> Seq<Neighbor>
    decreases upto,
{
    if upto == 0 {
        Seq::empty()
    } else {
        let r = upto - 1;
        budgeted_sequence(lists, probes, distances, max_codes, r as nat) + leading_rows(
            lists[probes[r] as int]@,
            distances[r]@,
            budget_share(lists, probes, max_codes, r),
        )
    }
}

/// What a collection of `k` rows holds after a query scanned what the budget
/// lets it.
pub open spec fn budgeted_items(
    lists: Seq<Vec<i64>>,
    probes: Seq<usize>,
    distances: Seq<Vec<u32>>,
    max_codes: int,
    k: usize,
) -> Seq<Neighbor> {
    crate::topk::all_pushed(
        Seq::empty(),
        k as nat,
        budgeted_sequence(lists, probes, distances, max_codes, probes.len()),
    )
}

/// A query's probes name lists, and each probe has a distance for every row
/// that the budget admits.
pub open spec fn budget_fits(
    lists: Seq<Vec<i64>>,
    probes: Seq<usize>,
    distances: Seq<Vec<u32>>,
    max_codes: int,
) -> bool {
    &&& distances.len() == probes.len()
    &&& forall|r: int| 0 <= r < probes.len() ==> #[trigger] probes[r] < lists.len()
    &&& forall|r: int|
        0 <= r < probes.len() ==> (#[trigger] distances[r])@.len() >= budget_share(
            lists,
            probes,
            max_codes,
            r,
        ) && crate::scan::numbers(
            leading_rows(
                lists[probes[r] as int]@,
                distances[r]@,
                budget_share(lists, probes, max_codes, r),
            ),
        )
}

/// All rows of the lists that a query probes at ranks below `upto`.
pub open spec fn rows_probed(lists: Seq<Vec<i64>>, probes: Seq<usize>, upto: nat) -> nat
    decreases upto,
{
    if upto == 0 {
        0
    } else {
        rows_probed(lists, probes, (upto - 1) as nat) + lists[probes[upto - 1] as int]@.len()
    }
}

proof fn lemma_whole_budget(
    lists: Seq<Vec<i64>>,
    probes: Seq<usize>,
    max_codes: int,
    upto: nat,
)
    requires
        rows_probed(lists, probes, upto) <= max_codes,
    ensures
        budget_used(lists, probes, max_codes, upto) == rows_probed(lists, probes, upto),
    decreases upto,
{
    if upto > 0 {
        lemma_whole_budget(lists, probes, max_codes, (upto - 1) as nat);
    }
}

/// Without a filter, a list offers all of its rows.
proof fn lemma_all_rows_allowed(ids: Seq<i64>, distances: Seq<u32>)
    ensures
        crate::session::allowed_rows::<HashSet<i64>>(ids, distances, None) == leading_rows(
            ids,
            distances,
            ids.len() as int,
        ),
{
    crate::session::lemma_visited_passes::<HashSet<i64>>(ids, None, None);
}

/// A budget for all rows of the probed lists changes nothing: a query is
/// offered what a search without a budget offers it.
pub proof fn law_a_budget_for_all_rows_offers_them_all(
    lists: Seq<Vec<i64>>,
    probes: Seq<usize>,
    distances: Seq<Vec<u32>>,
    max_codes: int,
    upto: nat,
)
    requires
        rows_probed(lists, probes, upto) <= max_codes,
    ensures
        budgeted_rows(lists, probes, distances, max_codes, upto)
            == crate::list_search::probed_rows::<HashSet<i64>>(
            lists,
            probes,
            distances,
            None,
            upto,
        ),
        budgeted_sequence(lists, probes, distances, max_codes, upto)
            == crate::list_search::probed_sequence::<HashSet<i64>>(
            lists,
            probes,
            distances,
            None,
            upto,
        ),
    decreases upto,
{
    if upto > 0 {
        let r = upto - 1;
        law_a_budget_for_all_rows_offers_them_all(lists, probes, distances, max_codes, r as nat);
        lemma_whole_budget(lists, probes, max_codes, upto);
        lemma_whole_budget(lists, probes, max_codes, r as nat);
        lemma_all_rows_allowed(lists[probes[r] as int]@, distances[r]@);
    }
}

/// A budget of nothing offers nothing, so that every place of the answer is
/// padding.
pub proof fn law_no_budget_offers_nothing(
    lists: Seq<Vec<i64>>,
    probes: Seq<usize>,
    distances: Seq<Vec<u32>>,
    upto: nat,
)
    ensures
        budgeted_rows(lists, probes, distances, 0, upto) == Multiset::<Neighbor>::empty(),
        forall|ids: Seq<i64>, found: Seq<u32>, query: int, k: usize| #[trigger]
            crate::session::answers(
                budgeted_rows(lists, probes, distances, 0, upto),
                ids,
                found,
                query,
                k,
            ) ==> crate::session::is_padding(ids, found, query, k),
    decreases upto,
{
    if upto > 0 {
        let r = upto - 1;
        law_no_budget_offers_nothing(lists, probes, distances, r as nat);
        law_budget_is_respected(lists, probes, 0, upto);
        law_budget_is_respected(lists, probes, 0, r as nat);
        let none = leading_rows(
            lists[probes[r] as int]@,
            distances[r]@,
            budget_share(lists, probes, 0, r),
        );
        none.to_multiset_ensures();
        assert(none.to_multiset().len() == 0);
        assert(none.to_multiset() =~= Multiset::<Neighbor>::empty());
        assert(budgeted_rows(lists, probes, distances, 0, upto) =~= Multiset::<Neighbor>::empty());
    }
    assert forall|ids: Seq<i64>, found: Seq<u32>, query: int, k: usize| #[trigger]
        crate::session::answers(
            budgeted_rows(lists, probes, distances, 0, upto),
            ids,
            found,
            query,
            k,
        ) implies crate::session::is_padding(ids, found, query, k) by {
        crate::session::law_nothing_offered_is_padding(ids, found, query, k);
    }
}

/// Whatever the budget, a query is offered no more rows than that, and only
/// rows that a search without a budget offers it too.
pub proof fn law_a_budget_offers_a_part(
    lists: Seq<Vec<i64>>,
    probes: Seq<usize>,
    distances: Seq<Vec<u32>>,
    max_codes: int,
    upto: nat,
)
    requires
        max_codes >= 0,
    ensures
        budgeted_rows(lists, probes, distances, max_codes, upto).len() == budget_used(
            lists,
            probes,
            max_codes,
            upto,
        ) <= max_codes,
        budgeted_rows(lists, probes, distances, max_codes, upto).subset_of(
            crate::list_search::probed_rows::<HashSet<i64>>(
                lists,
                probes,
                distances,
                None,
                upto,
            ),
        ),
    decreases upto,
{
    law_budget_is_respected(lists, probes, max_codes, upto);
    if upto > 0 {
        let r = upto - 1;
        law_a_budget_offers_a_part(lists, probes, distances, max_codes, r as nat);
        let ids = lists[probes[r] as int]@;
        let share = budget_share(lists, probes, max_codes, r);
        assert(0 <= share <= ids.len());
        let part = leading_rows(ids, distances[r]@, share);
        let whole = leading_rows(ids, distances[r]@, ids.len() as int);
        let rest = whole.skip(share);
        lemma_all_rows_allowed(ids, distances[r]@);
        assert(whole =~= part + rest);
        vstd::seq_lib::lemma_multiset_commutative(part, rest);
        part.to_multiset_ensures();
        let before = budgeted_rows(lists, probes, distances, max_codes, r as nat);
        let all = crate::list_search::probed_rows::<HashSet<i64>>(
            lists,
            probes,
            distances,
            None,
            r as nat,
        );
        assert forall|x: Neighbor|
            before.add(part.to_multiset()).count(x) <= all.add(whole.to_multiset()).count(x) by {
            assert(before.count(x) <= all.count(x));
        }
    }
}

/// A budget never brings a nearer row to a place than a search without one.
pub proof fn law_a_budget_finds_no_nearer(
    lists: Seq<Vec<i64>>,
    probes: Seq<usize>,
    distances: Seq<Vec<u32>>,
    max_codes: int,
    within: (Seq<i64>, Seq<u32>),
    without: (Seq<i64>, Seq<u32>),
    query: int,
    k: usize,
)
    requires
        max_codes >= 0,
        crate::session::answers(
            budgeted_rows(lists, probes, distances, max_codes, probes.len()),
            within.0,
            within.1,
            query,
            k,
        ),
        crate::session::answers(
            crate::list_search::probed_rows::<HashSet<i64>>(
                lists,
                probes,
                distances,
                None,
                probes.len(),
            ),
            without.0,
            without.1,
            query,
            k,
        ),
    ensures
        forall|i: int|
            0 <= i < k && i < budget_used(lists, probes, max_codes, probes.len())
                ==> crate::order::numeric_key(without.1[query * k + i])
                <= crate::order::numeric_key(#[trigger] within.1[query * k + i]),
{
    let upto = probes.len();
    let some = budgeted_rows(lists, probes, distances, max_codes, upto);
    let all = crate::list_search::probed_rows::<HashSet<i64>>(lists, probes, distances, None, upto);
    law_a_budget_offers_a_part(lists, probes, distances, max_codes, upto);
    let a = choose|sorted: Seq<Neighbor>| #[trigger]
        crate::session::is_answer(some, sorted, k) && crate::scan::result_row(
            within.0,
            within.1,
            query,
            k as int,
            sorted,
        );
    let b = choose|sorted: Seq<Neighbor>| #[trigger]
        crate::session::is_answer(all, sorted, k) && crate::scan::result_row(
            without.0,
            without.1,
            query,
            k as int,
            sorted,
        );
    a.to_multiset_ensures();
    crate::session::law_more_rows_answer_no_farther(some, all, a, b, k);
    assert forall|i: int|
        0 <= i < k && i < budget_used(lists, probes, max_codes, upto) implies crate::order::numeric_key(
        without.1[query * k + i]) <= crate::order::numeric_key(#[trigger] within.1[query * k + i]) by {
        assert(i < a.len());
        assert(within.0[query * k + i] == crate::scan::padded_id(a, i));
        assert(without.0[query * k + i] == crate::scan::padded_id(b, i));
        assert(crate::order::numeric_key(b[i].0) <= crate::order::numeric_key(a[i].0));
    }
}

/// A budget for all rows gives the answer of a search without one: the same
/// rows at the same distances, place by place.
pub proof fn law_a_budget_for_all_rows_answers_alike(
    lists: Seq<Vec<i64>>,
    probes: Seq<usize>,
    distances: Seq<Vec<u32>>,
    max_codes: int,
    within: (Seq<i64>, Seq<u32>),
    without: (Seq<i64>, Seq<u32>),
    query: int,
    k: usize,
)
    requires
        rows_probed(lists, probes, probes.len()) <= max_codes,
        crate::scan::lists_sorted(
            budgeted_items(lists, probes, distances, max_codes, k),
            within.0,
            within.1,
            query,
            k,
        ),
        crate::scan::lists_sorted(
            crate::list_search::probed_items::<HashSet<i64>>(lists, probes, distances, None, k),
            without.0,
            without.1,
            query,
            k,
        ),
    ensures
        forall|i: int|
            0 <= i < k ==> #[trigger] within.0[query * k + i] == without.0[query * k + i]
                && within.1[query * k + i] == without.1[query * k + i],
{
    law_a_budget_for_all_rows_offers_them_all(lists, probes, distances, max_codes, probes.len());
    let items = budgeted_items(lists, probes, distances, max_codes, k);
    let a = choose|sorted: Seq<Neighbor>| #[trigger]
        crate::topk::stably_sorted(items, sorted) && crate::scan::result_row(
            within.0,
            within.1,
            query,
            k as int,
            sorted,
        );
    let b = choose|sorted: Seq<Neighbor>| #[trigger]
        crate::topk::stably_sorted(items, sorted) && crate::scan::result_row(
            without.0,
            without.1,
            query,
            k as int,
            sorted,
        );
    crate::topk::law_stable_sorting_is_unique(items, a, b);
    assert forall|i: int| 0 <= i < k implies #[trigger] within.0[query * k + i]
        == without.0[query * k + i] && within.1[query * k + i] == without.1[query * k + i] by {
        assert(within.0[query * k + i] == crate::scan::padded_id(a, i));
        assert(without.0[query * k + i] == crate::scan::padded_id(b, i));
    }
}

impl IVFPQIndex {
    /// How many leading rows of each probed list a query may scan.
    pub fn plan_budget(&self, probes: &Vec<usize>, max_codes: usize) -> (shares: Vec<usize>)
        requires
            self.well_formed(),
            forall|r: int| 0 <= r < probes@.len() ==> #[trigger] probes@[r] < self.nlist,
        ensures
            shares@.len() == probes@.len(),
            forall|r: int|
                0 <= r < shares@.len() ==> #[trigger] shares@[r] == budget_share(
                    self.ids@,
                    probes@,
                    max_codes as int,
                    r,
                ),
    {
        let mut shares: Vec<usize> = Vec::new();
        let mut used: usize = 0;
        let mut r: usize = 0;
        while r < probes.len()
            invariant
                r <= probes@.len(),
                self.well_formed(),
                forall|i: int| 0 <= i < probes@.len() ==> #[trigger] probes@[i] < self.nlist,
                used == budget_used(self.ids@, probes@, max_codes as int, r as nat),
                used <= max_codes,
                shares@.len() == r,
                forall|i: int|
                    0 <= i < r ==> #[trigger] shares@[i] == budget_share(
                        self.ids@,
                        probes@,
                        max_codes as int,
                        i,
                    ),
            decreases probes@.len() - r,
        {
            let list: usize = probes[r];
            let count: usize = self.ids[list].len();
            let left: usize = max_codes - used;
            let share: usize = if count < left {
                count
            } else {
                left
            };
            shares.push(share);
            used = used + share;
            r = r + 1;
        }
        shares
    }

    /// The nearest rows among those that the budget lets a query scan.
    pub fn search_with_max_codes(
        &self,
        probes: &Vec<Vec<usize>>,
        distances: &Vec<Vec<Vec<u32>>>,
        k: usize,
        max_codes: usize,
    ) -> (out: (Vec<i64>, Vec<u32>))
        requires
            self.well_formed(),
            k * 2 + 2 <= usize::MAX,
            probes@.len() * k <= usize::MAX,
            distances@.len() == probes@.len(),
            forall|q: int|
                0 <= q < probes@.len() ==> budget_fits(
                    self.ids@,
                    (#[trigger] probes@[q])@,
                    distances@[q]@,
                    max_codes as int,
                ),
        ensures
            out.0@.len() == probes@.len() * k,
            out.1@.len() == probes@.len() * k,
            forall|q: int|
                0 <= q < probes@.len() ==> crate::session::answers(
                    budgeted_rows(
                        self.ids@,
                        (#[trigger] probes@[q])@,
                        distances@[q]@,
                        max_codes as int,
                        probes@[q]@.len(),
                    ),
                    out.0@,
                    out.1@,
                    q,
                    k,
                ),
            forall|q: int|
                0 <= q < probes@.len() ==> crate::scan::lists_sorted(
                    budgeted_items(
                        self.ids@,
                        (#[trigger] probes@[q])@,
                        distances@[q]@,
                        max_codes as int,
                        k,
                    ),
                    out.0@,
                    out.1@,
                    q,
                    k,
                ),
    {
        let mut results: Vec<Vec<Neighbor>> = Vec::new();
        let mut q: usize = 0;
        while q < probes.len()
            invariant
                q <= probes@.len(),
                self.well_formed(),
                k * 2 + 2 <= usize::MAX,
                distances@.len() == probes@.len(),
                forall|p: int|
                    0 <= p < probes@.len() ==> budget_fits(
                        self.ids@,
                        (#[trigger] probes@[p])@,
                        distances@[p]@,
                        max_codes as int,
                    ),
                results@.len() == q,
                forall|p: int|
                    0 <= p < q ==> crate::session::is_answer(
                        budgeted_rows(
                            self.ids@,
                            probes@[p]@,
                            distances@[p]@,
                            max_codes as int,
                            probes@[p]@.len(),
                        ),
                        (#[trigger] results@[p])@,
                        k,
                    ),
                forall|p: int|
                    0 <= p < q ==> crate::topk::stably_sorted(
                        budgeted_items(
                            self.ids@,
                            probes@[p]@,
                            distances@[p]@,
                            max_codes as int,
                            k,
                        ),
                        (#[trigger] results@[p])@,
                    ),
            decreases probes@.len() - q,
        {
            let row = &probes[q];
            let row_distances = &distances[q];
            assert(budget_fits(
                self.ids@,
                probes@[q as int]@,
                distances@[q as int]@,
                max_codes as int,
            ));
            let shares = self.plan_budget(row, max_codes);
            proof {
                law_budget_is_respected(self.ids@, row@, max_codes as int, row@.len());
            }
            let mut heap = TopKHeap::new(k);
            proof {
                crate::scan::lemma_empty_heap(heap);
            }
            let mut r: usize = 0;
            while r < row.len()
                invariant
                    q < probes@.len(),
                    row@ == probes@[q as int]@,
                    row_distances@ == distances@[q as int]@,
                    r <= row@.len(),
                    self.well_formed(),
                    budget_fits(self.ids@, row@, row_distances@, max_codes as int),
                    shares@.len() == row@.len(),
                    forall|i: int|
                        0 <= i < shares@.len() ==> #[trigger] shares@[i] == budget_share(
                            self.ids@,
                            row@,
                            max_codes as int,
                            i,
                        ),
                    forall|i: int|
                        0 <= i < row@.len() ==> 0 <= #[trigger] budget_share(
                            self.ids@,
                            row@,
                            max_codes as int,
                            i,
                        ) <= self.ids@[row@[i] as int]@.len(),
                    crate::scan::open_heap(heap),
                    heap.spec_k() == k,
                    crate::topk::nearest_of(
                        budgeted_rows(
                            self.ids@,
                            row@,
                            row_distances@,
                            max_codes as int,
                            r as nat,
                        ),
                        heap.contents(),
                        k as nat,
                    ),
                    heap.items() == crate::topk::all_pushed(
                        Seq::empty(),
                        k as nat,
                        budgeted_sequence(
                            self.ids@,
                            row@,
                            row_distances@,
                            max_codes as int,
                            r as nat,
                        ),
                    ),
                decreases row@.len() - r,
            {
                let list: usize = row[r];
                let share: usize = shares[r];
                let ids = vstd::slice::slice_subrange(self.ids[list].as_slice(), 0, share);
                let dists = vstd::slice::slice_subrange(row_distances[r].as_slice(), 0, share);
                proof {
                    let whole = leading_rows(
                        self.ids@[list as int]@,
                        row_distances@[r as int]@,
                        share as int,
                    );
                    assert(crate::scan::scanned(ids@, dists@, None) =~= whole);
                    crate::topk::law_pushing_in_parts(
                        Seq::empty(),
                        k as nat,
                        budgeted_sequence(
                            self.ids@,
                            row@,
                            row_distances@,
                            max_codes as int,
                            r as nat,
                        ),
                        whole,
                    );
                }
                scan_rows(ids, dists, None, &mut heap);
                r = r + 1;
            }
            results.push(heap.into_sorted());
            q = q + 1;
        }
        let out = assemble_results(&results, k);
        proof {
            assert forall|q: int| 0 <= q < probes@.len() implies crate::session::answers(
                budgeted_rows(
                    self.ids@,
                    (#[trigger] probes@[q])@,
                    distances@[q]@,
                    max_codes as int,
                    probes@[q]@.len(),
                ),
                out.0@,
                out.1@,
                q,
                k,
            ) by {
                assert(crate::session::is_answer(
                    budgeted_rows(
                        self.ids@,
                        probes@[q]@,
                        distances@[q]@,
                        max_codes as int,
                        probes@[q]@.len(),
                    ),
                    results@[q]@,
                    k,
                ));
            }
            assert forall|q: int| 0 <= q < probes@.len() implies crate::scan::lists_sorted(
                budgeted_items(
                    self.ids@,
                    (#[trigger] probes@[q])@,
                    distances@[q]@,
                    max_codes as int,
                    k,
                ),
                out.0@,
                out.1@,
                q,
                k,
            ) by {
                assert(crate::topk::stably_sorted(
                    budgeted_items(
                        self.ids@,
                        probes@[q]@,
                        distances@[q]@,
                        max_codes as int,
                        k,
                    ),
                    results@[q]@,
                ));
            }
        }
        out
    }
}

} // verus!
