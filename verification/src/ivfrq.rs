//! Inverted lists of residual-quantized rows held in memory.
use crate::distance::MetricType;
use crate::filter::RowIdFilter;
use crate::lists::{append_to_lists, empty_lists, group_rows, total_rows};
use crate::pruned::scan_with_bounds;
use crate::rq::{
    RQRotation, RQVectorFactors, RaBitQuantizer, DEFAULT_RQ_BITS, DEFAULT_RQ_ROTATION_ROUNDS,
    DEFAULT_RQ_ROTATION_SEED,
};
use crate::rq_encode::LevelKernel;
use crate::rq_factors::TermStep;
use crate::scan::assemble_results;
use crate::session::LoadedList;
use crate::topk::{Neighbor, TopKHeap};
use std::collections::HashSet;
use vstd::multiset::Multiset;
use vstd::prelude::*;

verus! {

/// An index whose rows are residuals encoded plane by plane.
#[derive(Debug)]
pub struct IVFRQIndex {
    pub d: usize,
    pub padded_d: usize,
    pub nlist: usize,
    pub bits: usize,
    pub metric: MetricType,
    pub quantizer_centroids: Vec<u32>,
    pub quantizer_centroid_norms: Vec<u32>,
    pub rotated_centroids: Vec<u32>,
    pub rotation_seed: u64,
    pub rotation_rounds: u32,
    pub ids: Vec<Vec<i64>>,
    pub codes: Vec<Vec<u8>>,
    pub factors: Vec<Vec<RQVectorFactors>>,
    pub quantizer: RaBitQuantizer,
    pub rotation: RQRotation,
}

/// The lists of an index, each at the place of its number.
pub open spec fn index_lists(ids: Seq<Vec<i64>>) -> Seq<LoadedList> {
    Seq::new(ids.len(), |l: int| LoadedList { list_id: l as usize, ids: ids[l] })
}

proof fn lemma_index_lists(ids: Seq<Vec<i64>>, list: usize)
    requires
        list < ids.len() <= usize::MAX,
    ensures
        crate::plan::loaded_at(crate::session::loaded_ids(index_lists(ids)), list) == Some(
            list as int,
        ),
{
    let numbers = crate::session::loaded_ids(index_lists(ids));
    crate::plan::lemma_loaded_at(numbers, list);
    assert(numbers[list as int] == list);
    assert(numbers.contains(list));
    let p = crate::plan::loaded_at(numbers, list)->0;
    assert(numbers[p] == p as usize);
}

/// The squared lengths of the first `count` centroids.
pub open spec fn centroid_norms<M: Fn(u32, u32, u32) -> u32>(
    product_step: M,
    centroids: Seq<u32>,
    d: nat,
    count: nat,
) -> Seq<u32> {
    Seq::new(
        count,
        |list: int|
            crate::pq_tables::accumulated(
                product_step,
                0u32,
                centroids,
                list * d,
                centroids,
                list * d,
                d,
            ),
    )
}

/// `rotated` holds the rotations of the first `count` centroids.
pub open spec fn are_rotated<
    A: Fn(u32, u32) -> u32,
    S: Fn(u32, u32) -> u32,
    E: Fn(u32) -> u32,
>(
    rotation: RQRotation,
    add: A,
    subtract: S,
    eighth: E,
    centroids: Seq<u32>,
    d: int,
    count: int,
    rotated: Seq<u32>,
) -> bool {
    let size = rotation.spec_padded() as int;
    &&& rotated.len() == count * size
    &&& forall|list: int|
        0 <= list < count ==> crate::rotate::rotates(
            rotation,
            add,
            subtract,
            eighth,
            crate::rotate::padded(centroids.subrange(list * d, (list + 1) * d), size as nat),
            #[trigger] rotated.subrange(list * size, (list + 1) * size),
        )
}

/// The components of a row less those of the centroid at `start`.
pub open spec fn residual_of<S: Fn(u32, u32) -> u32>(
    subtract: S,
    row: Seq<u32>,
    centroids: Seq<u32>,
    start: int,
) -> Seq<u32> {
    Seq::new(
        row.len(),
        |dim: int| crate::float_ops::result_of(subtract, row[dim], centroids[start + dim]),
    )
}

/// The bounds of an index's rows.
pub open spec fn list_bounds<B: Fn(usize, usize, usize) -> u32>(
    bound_of: B,
    bounded: bool,
    query: usize,
) -> spec_fn(crate::ivfrq_batch::RowKey, u32) -> bool {
    |row: crate::ivfrq_batch::RowKey, bound: u32|
        crate::pruned::computed_bounds(bound_of, bounded, query, row.0)(row.1 as int, bound)
}

/// A list was scanned row by row.
pub open spec fn list_scanned<
    F: RowIdFilter,
    B: Fn(usize, usize, usize) -> u32,
    E: Fn(usize, usize, usize) -> u32,
>(
    before: TopKHeap,
    after: TopKHeap,
    query: usize,
    list: usize,
    ids: Seq<i64>,
    filter: Option<&F>,
    bounded: bool,
    bound_of: B,
    distance_of: E,
) -> bool {
    exists|taken: Seq<usize>, distances: Seq<u32>, moments: Seq<TopKHeap>| #[trigger]
        crate::pruned::row_by_row(
            before,
            after,
            ids,
            crate::pruned::eligible_rows(ids, filter),
            crate::pruned::computed_bounds(bound_of, bounded, query, list),
            bounded,
            taken,
            distances,
            moments,
            ids.len(),
        ) && crate::ivfrq_search::measured(distance_of, query, list, taken, distances)
}

/// The probed lists were scanned one after the other; `states` are those of the
/// collection before each of the lists, and after the last.
pub open spec fn lists_scanned<
    F: RowIdFilter,
    B: Fn(usize, usize, usize) -> u32,
    E: Fn(usize, usize, usize) -> u32,
>(
    states: Seq<TopKHeap>,
    query: usize,
    probes: Seq<usize>,
    upto: nat,
    lists: Seq<Vec<i64>>,
    filter: Option<&F>,
    bounded: bool,
    bound_of: B,
    distance_of: E,
) -> bool {
    &&& states.len() == upto + 1
    &&& forall|r: int|
        0 <= r < upto ==> list_scanned(
            states[r],
            states[r + 1],
            query,
            #[trigger] probes[r],
            lists[probes[r] as int]@,
            filter,
            bounded,
            bound_of,
            distance_of,
        )
}

/// A search of one query that started with nothing.
pub open spec fn index_search<
    F: RowIdFilter,
    B: Fn(usize, usize, usize) -> u32,
    E: Fn(usize, usize, usize) -> u32,
>(
    after: TopKHeap,
    offered: Multiset<Neighbor>,
    query: usize,
    probes: Seq<usize>,
    lists: Seq<Vec<i64>>,
    filter: Option<&F>,
    bounded: bool,
    bound_of: B,
    distance_of: E,
    k: usize,
) -> bool {
    exists|empty: TopKHeap|
        {
            &&& empty.items() == Seq::<Neighbor>::empty()
            &&& empty.spec_k() == k
            &&& empty.max_distance() is None
            &&& #[trigger] crate::ivfrq_batch::query_served(
                empty,
                after,
                Multiset::empty(),
                offered,
                query,
                probes,
                0,
                index_lists(lists),
                filter,
                list_bounds(bound_of, bounded, query),
                distance_of,
            )
            &&& exists|states: Seq<TopKHeap>| #[trigger]
                lists_scanned(
                    states,
                    query,
                    probes,
                    probes.len(),
                    lists,
                    filter,
                    bounded,
                    bound_of,
                    distance_of,
                ) && states[0] == empty && states[probes.len() as int] == after
        }
}

/// Row `query` of the result holds what a search found: the items of its
/// collection by distance, equally far ones as they stand in it.
pub open spec fn search_answers<
    F: RowIdFilter,
    B: Fn(usize, usize, usize) -> u32,
    E: Fn(usize, usize, usize) -> u32,
>(
    ids: Seq<i64>,
    distances: Seq<u32>,
    query: usize,
    probes: Seq<usize>,
    lists: Seq<Vec<i64>>,
    filter: Option<&F>,
    bounded: bool,
    bound_of: B,
    distance_of: E,
    k: usize,
) -> bool {
    exists|after: TopKHeap, offered: Multiset<Neighbor>| #[trigger]
        index_search(
            after,
            offered,
            query,
            probes,
            lists,
            filter,
            bounded,
            bound_of,
            distance_of,
            k,
        ) && crate::session::answers(offered, ids, distances, query as int, k) && crate::scan::lists_sorted(
            after.items(),
            ids,
            distances,
            query as int,
            k,
        )
}

/// The code of a row in a list: its residual from the list's centroid, rotated
/// and quantized.
pub open spec fn is_row_code<
    A: Fn(u32, u32) -> u32,
    S: Fn(u32, u32) -> u32,
    E: Fn(u32) -> u32,
    B: Fn(u32) -> u32,
    L: Fn(u32, u32) -> u8,
    C: Fn(u8) -> u32,
    M: Fn(u32, u32, u32) -> u32,
    R: Fn(u32, u32) -> u32,
    F: Fn(TermStep) -> u32,
>(
    index: IVFRQIndex,
    add: A,
    subtract: S,
    eighth: E,
    kernel: LevelKernel<B, L, C, M, R>,
    f: F,
    row: Seq<u32>,
    list: int,
    code: Seq<u8>,
    factors: RQVectorFactors,
) -> bool {
    exists|rotated: Seq<u32>|
        {
            &&& #[trigger] crate::rotate::rotates(
                index.rotation,
                add,
                subtract,
                eighth,
                crate::rotate::padded(
                    residual_of(subtract, row, index.quantizer_centroids@, list * index.d),
                    index.padded_d as nat,
                ),
                rotated,
            )
            &&& crate::rq_encode::is_encoded(
                index.quantizer,
                kernel,
                f,
                rotated,
                index.rotated_centroids@.subrange(
                    list * index.padded_d,
                    (list + 1) * index.padded_d,
                ),
                index.metric,
                code,
                factors,
            )
        }
}

impl IVFRQIndex {
    /// Every list holds one code and one set of factors per id.
    pub open spec fn well_formed(self) -> bool {
        &&& self.quantizer.well_formed()
        &&& self.quantizer.spec_dimension() == self.d
        &&& self.quantizer.spec_bits() == self.bits
        &&& self.padded_d == self.quantizer.spec_padded()
        &&& self.rotation.well_formed()
        &&& self.rotation.spec_dimension() == self.d
        &&& self.rotation.spec_seed() == self.rotation_seed
        &&& self.rotation.spec_rounds() == self.rotation_rounds
        &&& self.ids@.len() == self.nlist
        &&& self.codes@.len() == self.nlist
        &&& self.factors@.len() == self.nlist
        &&& forall|l: int|
            0 <= l < self.nlist ==> (#[trigger] self.codes@[l])@.len() == self.ids@[l]@.len()
                * self.spec_code_size()
        &&& forall|l: int|
            0 <= l < self.nlist ==> (#[trigger] self.factors@[l])@.len() == self.ids@[l]@.len()
    }

    pub open spec fn spec_code_size(self) -> int {
        self.quantizer.spec_plane_size() * self.quantizer.spec_bits()
    }

    /// No list holds a row.
    pub open spec fn is_empty_index(self) -> bool {
        forall|l: int| 0 <= l < self.nlist ==> (#[trigger] self.ids@[l])@.len() == 0
    }

    /// An empty index with the default bits and rotation.
    pub fn new(d: usize, nlist: usize, metric: MetricType) -> (index: Self)
        requires
            crate::rq::spec_padded_dimension(d as int) <= usize::MAX,
        ensures
            index.well_formed(),
            index.is_empty_index(),
            index.d == d,
            index.nlist == nlist,
            index.bits == DEFAULT_RQ_BITS,
            index.metric == metric,
            index.rotation_seed == DEFAULT_RQ_ROTATION_SEED,
            index.rotation_rounds == DEFAULT_RQ_ROTATION_ROUNDS,
            index.padded_d == crate::rq::spec_padded_dimension(d as int),
            index.quantizer_centroids@ == Seq::<u32>::empty(),
            index.quantizer_centroid_norms@ == Seq::<u32>::empty(),
            index.rotated_centroids@ == Seq::<u32>::empty(),
    {
        Self::with_options(
            d,
            nlist,
            DEFAULT_RQ_BITS,
            metric,
            DEFAULT_RQ_ROTATION_SEED,
            DEFAULT_RQ_ROTATION_ROUNDS,
        )
    }

    pub fn with_bits(d: usize, nlist: usize, bits: usize, metric: MetricType) -> (index: Self)
        requires
            1 <= bits <= 8,
            crate::rq::spec_padded_dimension(d as int) <= usize::MAX,
        ensures
            index.well_formed(),
            index.is_empty_index(),
            index.d == d,
            index.nlist == nlist,
            index.bits == bits,
            index.metric == metric,
            index.rotation_seed == DEFAULT_RQ_ROTATION_SEED,
            index.rotation_rounds == DEFAULT_RQ_ROTATION_ROUNDS,
            index.padded_d == crate::rq::spec_padded_dimension(d as int),
            index.quantizer_centroids@ == Seq::<u32>::empty(),
            index.quantizer_centroid_norms@ == Seq::<u32>::empty(),
            index.rotated_centroids@ == Seq::<u32>::empty(),
    {
        Self::with_options(
            d,
            nlist,
            bits,
            metric,
            DEFAULT_RQ_ROTATION_SEED,
            DEFAULT_RQ_ROTATION_ROUNDS,
        )
    }

    pub fn with_options(
        d: usize,
        nlist: usize,
        bits: usize,
        metric: MetricType,
        rotation_seed: u64,
        rotation_rounds: u32,
    ) -> (index: Self)
        requires
            1 <= bits <= 8,
            crate::rq::spec_padded_dimension(d as int) <= usize::MAX,
        ensures
            index.well_formed(),
            index.is_empty_index(),
            index.d == d,
            index.padded_d == crate::rq::spec_padded_dimension(d as int),
            index.nlist == nlist,
            index.bits == bits,
            index.metric == metric,
            index.rotation_seed == rotation_seed,
            index.rotation_rounds == rotation_rounds,
            index.quantizer_centroids@ == Seq::<u32>::empty(),
            index.quantizer_centroid_norms@ == Seq::<u32>::empty(),
            index.rotated_centroids@ == Seq::<u32>::empty(),
    {
        let quantizer = RaBitQuantizer::new(d, bits);
        let padded_d: usize = quantizer.padded_dimension();
        let rotation = RQRotation::new(d, rotation_seed, rotation_rounds);
        proof {
            let size = quantizer.spec_plane_size() * quantizer.spec_bits();
            assert(0 * size == 0) by (nonlinear_arith);
        }
        IVFRQIndex {
            d,
            padded_d,
            nlist,
            bits,
            metric,
            quantizer_centroids: Vec::new(),
            quantizer_centroid_norms: Vec::new(),
            rotated_centroids: Vec::new(),
            rotation_seed,
            rotation_rounds,
            ids: empty_lists(nlist),
            codes: empty_lists(nlist),
            factors: empty_lists(nlist),
            quantizer,
            rotation,
        }
    }

    /// Whether vectors are normalized before they are used.
    pub fn normalizes_vectors(&self) -> (normalizes: bool)
        ensures
            normalizes == (self.metric == MetricType::Cosine),
    {
        match self.metric {
            MetricType::Cosine => true,
            _ => false,
        }
    }

    /// Takes over trained centroids, with their squared lengths and their
    /// rotations.
    pub fn set_centroids<
        A: Fn(u32, u32) -> u32,
        S: Fn(u32, u32) -> u32,
        E: Fn(u32) -> u32,
        M: Fn(u32, u32, u32) -> u32,
    >(&mut self, centroids: Vec<u32>, add: &A, subtract: &S, eighth: &E, product_step: &M)
        requires
            old(self).well_formed(),
            centroids@.len() == old(self).nlist * old(self).d,
            crate::float_ops::is_operation(*add),
            crate::float_ops::is_operation(*subtract),
            crate::float_ops::is_map(*eighth),
            crate::pq_tables::is_step(*product_step),
        ensures
            final(self).well_formed(),
            final(self).quantizer_centroids@ == centroids@,
            final(self).quantizer_centroid_norms@ == centroid_norms(
                *product_step,
                centroids@,
                old(self).d as nat,
                old(self).nlist as nat,
            ),
            are_rotated(
                old(self).rotation,
                *add,
                *subtract,
                *eighth,
                centroids@,
                old(self).d as int,
                old(self).nlist as int,
                final(self).rotated_centroids@,
            ),
            final(self).d == old(self).d,
            final(self).padded_d == old(self).padded_d,
            final(self).nlist == old(self).nlist,
            final(self).bits == old(self).bits,
            final(self).metric == old(self).metric,
            final(self).rotation_seed == old(self).rotation_seed,
            final(self).rotation_rounds == old(self).rotation_rounds,
            final(self).rotation == old(self).rotation,
            final(self).quantizer == old(self).quantizer,
            final(self).ids == old(self).ids,
            final(self).codes == old(self).codes,
            final(self).factors == old(self).factors,
    {
        let d: usize = self.d;
        let nlist: usize = self.nlist;
        let total: usize = centroids.len();
        let mut norms: Vec<u32> = Vec::new();
        let mut rotated: Vec<u32> = Vec::new();
        let mut list: usize = 0;
        while list < nlist
            invariant
                self.well_formed(),
                d == self.d,
                nlist == self.nlist,
                total == centroids@.len(),
                total == nlist * d,
                crate::float_ops::is_operation(*add),
                crate::float_ops::is_operation(*subtract),
                crate::float_ops::is_map(*eighth),
                crate::pq_tables::is_step(*product_step),
                list <= nlist,
                norms@ == centroid_norms(*product_step, centroids@, d as nat, list as nat),
                are_rotated(
                    self.rotation,
                    *add,
                    *subtract,
                    *eighth,
                    centroids@,
                    d as int,
                    list as int,
                    rotated@,
                ),
            decreases nlist - list,
        {
            assert(0 <= list * d && list * d + d <= nlist * d && list * d + d == (list + 1) * d)
                by (nonlinear_arith)
                requires
                    list < nlist,
            ;
            let start: usize = list * d;
            norms.push(
                crate::pq_tables::accumulate(
                    product_step,
                    0u32,
                    centroids.as_slice(),
                    start,
                    centroids.as_slice(),
                    start,
                    d,
                ),
            );
            let row = vstd::slice::slice_subrange(centroids.as_slice(), start, start + d);
            let mut one = self.rotation.rotate(row, add, subtract, eighth);
            let ghost before = rotated@;
            let ghost part = one@;
            rotated.append(&mut one);
            proof {
                let after = rotated@;
                let size = self.rotation.spec_padded() as int;
                assert(after =~= before + part);
                assert(list * size + size == (list + 1) * size && 0 <= list * size)
                    by (nonlinear_arith)
                    requires
                        0 <= size,
                ;
                assert forall|l: int| 0 <= l < list + 1 implies crate::rotate::rotates(
                    self.rotation,
                    *add,
                    *subtract,
                    *eighth,
                    crate::rotate::padded(
                        centroids@.subrange(l * d, (l + 1) * d),
                        size as nat,
                    ),
                    #[trigger] after.subrange(l * size, (l + 1) * size),
                ) by {
                    if l < list {
                        assert(0 <= l * size && l * size <= (l + 1) * size && (l + 1) * size
                            <= list * size) by (nonlinear_arith)
                            requires
                                0 <= l < list,
                                0 <= size,
                        ;
                        assert(after.subrange(l * size, (l + 1) * size) =~= before.subrange(
                            l * size,
                            (l + 1) * size,
                        ));
                    } else {
                        assert(after.subrange(l * size, (l + 1) * size) =~= part);
                    }
                }
                assert(norms@ =~= centroid_norms(
                    *product_step,
                    centroids@,
                    d as nat,
                    (list + 1) as nat,
                ));
            }
            list = list + 1;
        }
        self.quantizer_centroids = centroids;
        self.quantizer_centroid_norms = norms;
        self.rotated_centroids = rotated;
    }

    /// The code of a row in a list: its residual to the list's centroid is
    /// rotated and quantized.
    pub fn encode_row<
        A: Fn(u32, u32) -> u32,
        S: Fn(u32, u32) -> u32,
        E: Fn(u32) -> u32,
        B: Fn(u32) -> u32,
        L: Fn(u32, u32) -> u8,
        C: Fn(u8) -> u32,
        M: Fn(u32, u32, u32) -> u32,
        R: Fn(u32, u32) -> u32,
        F: Fn(TermStep) -> u32,
    >(
        &self,
        row: &[u32],
        list: usize,
        add: &A,
        subtract: &S,
        eighth: &E,
        kernel: &LevelKernel<B, L, C, M, R>,
        f: &F,
    ) -> (out: (Vec<u8>, RQVectorFactors))
        requires
            self.well_formed(),
            row@.len() == self.d,
            list < self.nlist,
            self.quantizer_centroids@.len() == self.nlist * self.d,
            self.rotated_centroids@.len() == self.nlist * self.padded_d,
            crate::float_ops::is_operation(*add),
            crate::float_ops::is_operation(*subtract),
            crate::float_ops::is_map(*eighth),
            crate::rq_encode::is_level_kernel(*kernel),
            crate::rq_factors::is_arithmetic(*f),
        ensures
            out.0@.len() == self.spec_code_size(),
            is_row_code(
                *self,
                *add,
                *subtract,
                *eighth,
                *kernel,
                *f,
                row@,
                list as int,
                out.0@,
                out.1,
            ),
    {
        let d: usize = self.d;
        let size: usize = self.padded_d;
        let total: usize = self.quantizer_centroids.len();
        let rotated_total: usize = self.rotated_centroids.len();
        proof {
            self.rotation.lemma_padded_is_whole();
            let nlist = self.nlist as int;
            assert(0 <= list * d && list * d + d <= nlist * d) by (nonlinear_arith)
                requires
                    list < nlist,
            ;
            assert(0 <= list * size && list * size + size <= nlist * size && list * size + size
                == (list + 1) * size) by (nonlinear_arith)
                requires
                    list < nlist,
            ;
        }
        let start: usize = list * d;
        let ghost expected = residual_of(*subtract, row@, self.quantizer_centroids@, start as int);
        let mut residual: Vec<u32> = Vec::new();
        let mut dim: usize = 0;
        while dim < d
            invariant
                d == self.d,
                row@.len() == d,
                total == self.quantizer_centroids@.len(),
                start + d <= total,
                crate::float_ops::is_operation(*subtract),
                expected == residual_of(
                    *subtract,
                    row@,
                    self.quantizer_centroids@,
                    start as int,
                ),
                dim <= d,
                residual@ == expected.take(dim as int),
            decreases d - dim,
        {
            residual.push(
                crate::float_ops::operate(
                    subtract,
                    row[dim],
                    self.quantizer_centroids[start + dim],
                ),
            );
            dim = dim + 1;
            assert(residual@ =~= expected.take(dim as int));
        }
        assert(residual@ =~= expected);
        let rotated = self.rotation.rotate(residual.as_slice(), add, subtract, eighth);
        let from: usize = list * size;
        let centroid = vstd::slice::slice_subrange(
            self.rotated_centroids.as_slice(),
            from,
            from + size,
        );
        let mut code: Vec<u8> = vec![0u8; self.quantizer.code_size()];
        let factors = self.quantizer.encode(
            rotated.as_slice(),
            centroid,
            self.metric,
            &mut code,
            kernel,
            f,
        );
        assert(crate::rotate::rotates(
            self.rotation,
            *add,
            *subtract,
            *eighth,
            crate::rotate::padded(expected, self.padded_d as nat),
            rotated@,
        ));
        (code, factors)
    }

    /// Appends encoded rows to the lists they are assigned to, in row order.
    pub fn add(
        &mut self,
        assignments: &[usize],
        ids: &[i64],
        codes: &[u8],
        factors: &[RQVectorFactors],
    )
        requires
            old(self).well_formed(),
            ids@.len() == assignments@.len(),
            codes@.len() == assignments@.len() * old(self).spec_code_size(),
            factors@.len() == assignments@.len(),
            forall|i: int|
                0 <= i < assignments@.len() ==> #[trigger] assignments@[i] < old(self).nlist,
        ensures
            final(self).well_formed(),
            final(self).d == old(self).d,
            final(self).padded_d == old(self).padded_d,
            final(self).nlist == old(self).nlist,
            final(self).bits == old(self).bits,
            final(self).metric == old(self).metric,
            final(self).quantizer_centroids == old(self).quantizer_centroids,
            final(self).quantizer_centroid_norms == old(self).quantizer_centroid_norms,
            final(self).rotated_centroids == old(self).rotated_centroids,
            final(self).rotation_seed == old(self).rotation_seed,
            final(self).rotation_rounds == old(self).rotation_rounds,
            final(self).quantizer == old(self).quantizer,
            final(self).rotation == old(self).rotation,
            forall|l: int|
                0 <= l < old(self).nlist ==> (#[trigger] final(self).ids@[l])@ == old(self).ids@[l]@
                    + crate::lists::gathered_rows(
                    ids@,
                    crate::lists::rows_of(assignments@, l, assignments@.len()),
                    1,
                ),
            forall|l: int|
                0 <= l < old(self).nlist ==> (#[trigger] final(self).codes@[l])@
                    == old(self).codes@[l]@ + crate::lists::gathered_rows(
                    codes@,
                    crate::lists::rows_of(assignments@, l, assignments@.len()),
                    old(self).spec_code_size() as nat,
                ),
            forall|l: int|
                0 <= l < old(self).nlist ==> (#[trigger] final(self).factors@[l])@
                    == old(self).factors@[l]@ + crate::lists::gathered_rows(
                    factors@,
                    crate::lists::rows_of(assignments@, l, assignments@.len()),
                    1,
                ),
    {
        let code_size: usize = self.quantizer.code_size();
        let rows: usize = assignments.len();
        let groups = group_rows(assignments, self.nlist);
        proof {
            let n = rows as nat;
            assert forall|l: int, i: int|
                0 <= l < groups@.len() && 0 <= i < groups@[l]@.len() implies (
            #[trigger] groups@[l]@[i] + 1) * code_size <= codes@.len() && (groups@[l]@[i] + 1) * 1
                <= ids@.len() && (groups@[l]@[i] + 1) * 1 <= factors@.len() by {
                assert(groups@[l]@ == crate::lists::rows_of(assignments@, l, n));
                crate::matching::lemma_picked(crate::lists::assigned_to(assignments@, l), n);
                let row = groups@[l]@[i] as int;
                assert((row + 1) * code_size <= n * code_size) by (nonlinear_arith)
                    requires
                        row < n,
                ;
            }
        }
        append_to_lists(&mut self.ids, ids, &groups, 1);
        append_to_lists(&mut self.codes, codes, &groups, code_size);
        append_to_lists(&mut self.factors, factors, &groups, 1);
        proof {
            assert forall|l: int|
                #![trigger self.codes@[l]]
                #![trigger self.factors@[l]]
                0 <= l < self.nlist implies self.codes@[l]@.len() == self.ids@[l]@.len()
                * self.spec_code_size() && self.factors@[l]@.len() == self.ids@[l]@.len() by {
                let rows = groups@[l]@;
                assert forall|i: int| 0 <= i < rows.len() implies (#[trigger] rows[i] + 1)
                    * code_size <= codes@.len() && (rows[i] + 1) * 1 <= ids@.len() && (rows[i] + 1)
                    * 1 <= factors@.len() by {
                    assert((groups@[l]@[i] + 1) * code_size <= codes@.len());
                }
                crate::lists::lemma_gathered_len(codes@, rows, code_size as nat);
                crate::lists::lemma_gathered_len(ids@, rows, 1);
                crate::lists::lemma_gathered_len(factors@, rows, 1);
                let old_count = old(self).ids@[l]@.len();
                assert(old(self).codes@[l]@.len() == old_count * code_size);
                assert(old(self).factors@[l]@.len() == old_count);
                assert(self.ids@[l]@.len() == old_count + rows.len());
                assert((old_count + rows.len()) * code_size == old_count * code_size + rows.len()
                    * code_size) by (nonlinear_arith);
            }
        }
    }

    /// Number of rows.
    pub fn total_vectors(&self) -> (total: usize)
        requires
            crate::lists::count_rows(self.ids@, self.ids@.len()) <= usize::MAX,
        ensures
            total == crate::lists::count_rows(self.ids@, self.ids@.len()),
    {
        total_rows(&self.ids)
    }

    /// Bytes of one code.
    pub fn code_size(&self) -> (size: usize)
        requires
            self.well_formed(),
        ensures
            size == self.spec_code_size(),
    {
        self.quantizer.code_size()
    }

    /// Bytes of one plane of a code.
    pub fn plane_size(&self) -> (size: usize)
        ensures
            size == self.quantizer.spec_plane_size(),
    {
        self.quantizer.plane_size()
    }

    /// The nearest rows of the probed lists, without a filter.
    pub fn search<B: Fn(usize, usize, usize) -> u32, E: Fn(usize, usize, usize) -> u32>(
        &self,
        probes: &Vec<Vec<usize>>,
        k: usize,
        bound_of: &B,
        distance_of: &E,
    ) -> (out: (Vec<i64>, Vec<u32>))
        requires
            self.well_formed(),
            k * 2 + 2 <= usize::MAX,
            probes@.len() * k <= usize::MAX,
            crate::plan::probes_valid(probes@, self.nlist as nat),
            crate::ivfrq_batch::distinct_probes(probes@),
            self.kernel_fits(probes@.len(), *bound_of, *distance_of),
        ensures
            out.0@.len() == probes@.len() * k,
            out.1@.len() == probes@.len() * k,
            forall|q: int|
                0 <= q < probes@.len() ==> search_answers(
                    out.0@,
                    out.1@,
                    q as usize,
                    (#[trigger] probes@[q])@,
                    self.ids@,
                    None::<&HashSet<i64>>,
                    self.bits > 1,
                    *bound_of,
                    *distance_of,
                    k,
                ),
    {
        self.search_with_filter(probes, k, None::<&HashSet<i64>>, bound_of, distance_of)
    }

    /// The bounds and distances of every row can be computed.
    pub open spec fn kernel_fits<
        B: Fn(usize, usize, usize) -> u32,
        E: Fn(usize, usize, usize) -> u32,
    >(self, queries: nat, bound_of: B, distance_of: E) -> bool {
        &&& forall|query: usize, list: usize, row: usize|
            query < queries && list < self.nlist && row < self.ids@[list as int]@.len()
                ==> #[trigger] call_requires(bound_of, (query, list, row))
        &&& forall|query: usize, list: usize, row: usize|
            query < queries && list < self.nlist && row < self.ids@[list as int]@.len()
                ==> #[trigger] call_requires(distance_of, (query, list, row))
    }

    /// The nearest rows of the probed lists that pass the filter: one row of
    /// `k` places per query. Rows of codes with more than one bit are skipped
    /// when their lower bound is not near enough.
    pub fn search_with_filter<
        F: RowIdFilter,
        B: Fn(usize, usize, usize) -> u32,
        E: Fn(usize, usize, usize) -> u32,
    >(
        &self,
        probes: &Vec<Vec<usize>>,
        k: usize,
        filter: Option<&F>,
        bound_of: &B,
        distance_of: &E,
    ) -> (out: (Vec<i64>, Vec<u32>))
        requires
            self.well_formed(),
            k * 2 + 2 <= usize::MAX,
            probes@.len() * k <= usize::MAX,
            crate::plan::probes_valid(probes@, self.nlist as nat),
            crate::ivfrq_batch::distinct_probes(probes@),
            self.kernel_fits(probes@.len(), *bound_of, *distance_of),
        ensures
            out.0@.len() == probes@.len() * k,
            out.1@.len() == probes@.len() * k,
            forall|q: int|
                0 <= q < probes@.len() ==> search_answers(
                    out.0@,
                    out.1@,
                    q as usize,
                    (#[trigger] probes@[q])@,
                    self.ids@,
                    filter,
                    self.bits > 1,
                    *bound_of,
                    *distance_of,
                    k,
                ),
    {
        let bounded: bool = self.bits > 1;
        let mut results: Vec<Vec<Neighbor>> = Vec::new();
        let ghost mut heaps: Seq<TopKHeap> = Seq::empty();
        let ghost mut offers: Seq<Multiset<Neighbor>> = Seq::empty();
        let mut q: usize = 0;
        while q < probes.len()
            invariant
                q <= probes@.len(),
                bounded == (self.bits > 1),
                self.well_formed(),
                k * 2 + 2 <= usize::MAX,
                crate::plan::probes_valid(probes@, self.nlist as nat),
                crate::ivfrq_batch::distinct_probes(probes@),
                self.kernel_fits(probes@.len(), *bound_of, *distance_of),
                results@.len() == q,
                heaps.len() == q,
                offers.len() == q,
                forall|p: int|
                    0 <= p < q ==> crate::session::is_answer(
                        #[trigger] offers[p],
                        results@[p]@,
                        k,
                    ),
                forall|p: int|
                    0 <= p < q ==> crate::topk::stably_sorted(
                        (#[trigger] heaps[p]).items(),
                        results@[p]@,
                    ),
                forall|p: int|
                    0 <= p < q ==> index_search(
                        #[trigger] heaps[p],
                        offers[p],
                        p as usize,
                        probes@[p]@,
                        self.ids@,
                        filter,
                        bounded,
                        *bound_of,
                        *distance_of,
                        k,
                    ),
            decreases probes@.len() - q,
        {
            assert(probes@[q as int]@.no_duplicates());
            let (heap, Ghost(offered)) = self.scan_lists(
                q,
                &probes[q],
                k,
                filter,
                bounded,
                bound_of,
                distance_of,
            );
            proof {
                heaps = heaps.push(heap);
                offers = offers.push(offered);
            }
            results.push(heap.into_sorted());
            q = q + 1;
        }
        assert forall|p: int| 0 <= p < results@.len() implies (#[trigger] results@[p])@.len()
            <= k by {
            assert(crate::session::is_answer(offers[p], results@[p]@, k));
        }
        let out = assemble_results(&results, k);
        proof {
            assert forall|q: int| 0 <= q < probes@.len() implies search_answers(
                out.0@,
                out.1@,
                q as usize,
                (#[trigger] probes@[q])@,
                self.ids@,
                filter,
                self.bits > 1,
                *bound_of,
                *distance_of,
                k,
            ) by {
                assert(crate::session::is_answer(offers[q], results@[q]@, k));
                assert(crate::topk::stably_sorted(heaps[q].items(), results@[q]@));
                assert(index_search(
                    heaps[q],
                    offers[q],
                    q as usize,
                    probes@[q]@,
                    self.ids@,
                    filter,
                    bounded,
                    *bound_of,
                    *distance_of,
                    k,
                ));
            }
        }
        out
    }

    /// Scans the probed lists for one query.
    #[verifier::spinoff_prover]
    fn scan_lists<
        F: RowIdFilter,
        B: Fn(usize, usize, usize) -> u32,
        E: Fn(usize, usize, usize) -> u32,
    >(
        &self,
        query: usize,
        probes: &Vec<usize>,
        k: usize,
        filter: Option<&F>,
        bounded: bool,
        bound_of: &B,
        distance_of: &E,
    ) -> (out: (TopKHeap, Ghost<Multiset<Neighbor>>))
        requires
            self.well_formed(),
            k * 2 + 2 <= usize::MAX,
            probes@.no_duplicates(),
            forall|r: int| 0 <= r < probes@.len() ==> #[trigger] probes@[r] < self.nlist,
            forall|list: usize, row: usize|
                list < self.nlist && row < self.ids@[list as int]@.len()
                    ==> #[trigger] call_requires(bound_of, (query, list, row)),
            forall|list: usize, row: usize|
                list < self.nlist && row < self.ids@[list as int]@.len()
                    ==> #[trigger] call_requires(distance_of, (query, list, row)),
        ensures
            out.0.well_formed(),
            out.0.spec_k() == k,
            crate::topk::nearest_of(out.1@, out.0.contents(), k as nat),
            index_search(
                out.0,
                out.1@,
                query,
                probes@,
                self.ids@,
                filter,
                bounded,
                *bound_of,
                *distance_of,
                k,
            ),
    {
        let ghost lists = index_lists(self.ids@);
        let ghost bounds = list_bounds(*bound_of, bounded, query);
        let ghost mut rows: Seq<crate::ivfrq_batch::RowKey> = Seq::empty();
        let ghost mut distances: Seq<u32> = Seq::empty();
        let mut heap = TopKHeap::new(k);
        let ghost empty = heap;
        let ghost mut states: Seq<TopKHeap> = seq![heap];
        proof {
            crate::pruned::lemma_absorbs_nothing(empty);
            assert(crate::ivfrq_batch::row_items(lists, rows, distances) =~= Seq::<
                Neighbor,
            >::empty());
        }
        let mut r: usize = 0;
        while r < probes.len()
            invariant
                r <= probes@.len(),
                self.well_formed(),
                probes@.no_duplicates(),
                forall|i: int| 0 <= i < probes@.len() ==> #[trigger] probes@[i] < self.nlist,
                forall|list: usize, row: usize|
                    list < self.nlist && row < self.ids@[list as int]@.len()
                        ==> #[trigger] call_requires(bound_of, (query, list, row)),
                forall|list: usize, row: usize|
                    list < self.nlist && row < self.ids@[list as int]@.len()
                        ==> #[trigger] call_requires(distance_of, (query, list, row)),
                lists == index_lists(self.ids@),
                bounds == list_bounds(*bound_of, bounded, query),
                heap.well_formed(),
                crate::ivfrq_batch::offered_rows(
                    empty,
                    heap,
                    query,
                    probes@,
                    0,
                    r as nat,
                    lists,
                    filter,
                    bounds,
                    *distance_of,
                    rows,
                    distances,
                ),
                lists_scanned(
                    states,
                    query,
                    probes@,
                    r as nat,
                    self.ids@,
                    filter,
                    bounded,
                    *bound_of,
                    *distance_of,
                ),
                states[0] == empty,
                states[r as int] == heap,
            decreases probes@.len() - r,
        {
            let list: usize = probes[r];
            let ids = &self.ids[list];
            let count: usize = ids.len();
            let ghost now = heap;
            scan_with_bounds(
                query,
                list,
                ids.as_slice(),
                filter,
                bounded,
                bound_of,
                distance_of,
                &mut heap,
            );
            proof {
                let is_bound = crate::pruned::computed_bounds(*bound_of, bounded, query, list);
                let (taken, dists) = choose|taken: Seq<usize>, dists: Seq<u32>| #[trigger]
                    crate::pruned::pruned_scan(
                        now,
                        heap,
                        ids@,
                        crate::pruned::eligible_rows(ids@, filter),
                        is_bound,
                        taken,
                        dists,
                        ids@.len(),
                    ) && crate::ivfrq_search::measured(*distance_of, query, list, taken, dists)
                        && exists|moments: Seq<TopKHeap>| #[trigger]
                        crate::pruned::row_by_row(
                            now,
                            heap,
                            ids@,
                            crate::pruned::eligible_rows(ids@, filter),
                            is_bound,
                            bounded,
                            taken,
                            dists,
                            moments,
                            ids@.len(),
                        );
                assert(list_scanned(
                    now,
                    heap,
                    query,
                    list,
                    ids@,
                    filter,
                    bounded,
                    *bound_of,
                    *distance_of,
                ));
                let longer = states.push(heap);
                assert forall|i: int| 0 <= i < r + 1 implies list_scanned(
                    longer[i],
                    longer[i + 1],
                    query,
                    #[trigger] probes@[i],
                    self.ids@[probes@[i] as int]@,
                    filter,
                    bounded,
                    *bound_of,
                    *distance_of,
                ) by {
                    if i < r {
                        assert(list_scanned(
                            states[i],
                            states[i + 1],
                            query,
                            probes@[i],
                            self.ids@[probes@[i] as int]@,
                            filter,
                            bounded,
                            *bound_of,
                            *distance_of,
                        ));
                    }
                }
                states = longer;
                lemma_index_lists(self.ids@, list);
                assert(lists[list as int].ids@ == ids@);
                crate::ivfrq_batch::lemma_rank_scanned(
                    empty,
                    now,
                    heap,
                    query,
                    probes@,
                    0,
                    r as nat,
                    lists,
                    filter,
                    bounds,
                    *distance_of,
                    is_bound,
                    rows,
                    distances,
                    list,
                    taken,
                    dists,
                );
                rows = rows + crate::ivfrq_batch::rows_at(list, taken);
                distances = distances + dists;
            }
            r = r + 1;
        }
        let ghost offered = crate::pruned::worthy(
            None,
            crate::ivfrq_batch::row_items(lists, rows, distances),
        ).to_multiset();
        proof {
            crate::scan::lemma_empty_heap(empty);
            assert(Multiset::<Neighbor>::empty().add(offered) =~= offered);
            assert(crate::ivfrq_batch::query_served(
                empty,
                heap,
                Multiset::empty(),
                offered,
                query,
                probes@,
                0,
                lists,
                filter,
                bounds,
                *distance_of,
            ));
        }
        (heap, Ghost(offered))
    }
}

} // verus!
