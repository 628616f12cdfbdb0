//! Writing residual-quantized indexes.
use crate::blocks::block_list;
use crate::bytes::{push_i32, push_i64, push_words};
use crate::ivfrq::IVFRQIndex;
use crate::ivfrq_io::{
    checked_list_bytes, checked_section_size, write_header, write_list_table, ListEntry, RQHeader,
    IVF_RQ_FACTOR_LAYOUT_COMPACT_V1, IVF_RQ_HEADER_SIZE, IVF_RQ_ROTATION_TYPE_BLOCK_FHT,
};
use crate::order::stable_order;
use crate::rq::{is_supported_rq_bits, padded_dimension, DEFAULT_RQ_ROTATION_ROUNDS};
use vstd::prelude::*;

verus! {

/// Why an index cannot be written.
#[derive(Debug, Clone, Copy, PartialEq, Eq, Structural)]
pub enum WriteError {
    /// `IVF-RQ dimension and nlist must be positive`
    EmptyShape,
    /// `IVF-RQ bits must be in 1..=8`
    Bits,
    /// `IVF-RQ padded dimension mismatch`
    PaddedDimension,
    /// `IVF-RQ rotation rounds must be 4`
    RotationRounds,
    /// `IVF-RQ section size overflow`
    SectionSize,
    /// `IVF-RQ centroid storage shape mismatch`
    CentroidShape,
    /// `IVF-RQ list storage does not match nlist`
    ListStorage,
    /// `IVF-RQ list byte size overflow`
    ListBytes,
    /// `IVF-RQ list code length mismatch`
    CodeLength { list: usize },
    /// `IVF-RQ list factor count mismatch`
    FactorCount { list: usize },
    /// `total vector count exceeds i64`
    TotalVectors,
    /// `dimension exceeds i32`
    Dimension,
    /// `padded dimension exceeds i32`
    PaddedSize,
    /// `nlist exceeds i32`
    ListCountField,
    /// `plane size exceeds i32`
    PlaneSize,
    /// `IVF-RQ offset table size overflow`
    OffsetTable,
    /// `IVF-RQ data offset overflow`
    DataOffset,
    /// `list offset exceeds i64`
    ListOffset,
    /// `list count exceeds i32`
    ListCount,
    /// `delta ID bytes exceeds i32`
    IdBytes,
    /// `IVF-RQ list size overflow`
    ListSize,
    /// `IVF-RQ list offset overflow`
    ListOffsetOverflow,
    /// `blocked code bytes exceeds i32`
    CodeBytes,
}

/// The first of the first `n` lists whose storage has the wrong size.
pub open spec fn storage_problem(index: IVFRQIndex, n: nat) -> Option<WriteError>
    decreases n,
{
    if n == 0 {
        None
    } else {
        match storage_problem(index, (n - 1) as nat) {
            Some(error) => Some(error),
            None => {
                let count = index.ids@[n - 1]@.len();
                if count * index.spec_code_size() > usize::MAX {
                    Some(WriteError::ListBytes)
                } else if index.codes@[n - 1]@.len() != count * index.spec_code_size() {
                    Some(WriteError::CodeLength { list: (n - 1) as usize })
                } else if index.factors@[n - 1]@.len() != count {
                    Some(WriteError::FactorCount { list: (n - 1) as usize })
                } else {
                    None
                }
            },
        }
    }
}

/// What is wrong with the shape of an index.
pub open spec fn shape_problem(index: IVFRQIndex) -> Option<WriteError> {
    let limit = crate::ivfrq_io::MAX_SECTION_VALUES;
    if index.d == 0 || index.nlist == 0 {
        Some(WriteError::EmptyShape)
    } else if !(1 <= index.bits <= 8) {
        Some(WriteError::Bits)
    } else if index.padded_d != crate::rq::spec_padded_dimension(index.d as int) {
        Some(WriteError::PaddedDimension)
    } else if index.rotation_rounds != DEFAULT_RQ_ROTATION_ROUNDS {
        Some(WriteError::RotationRounds)
    } else if index.nlist * index.d > limit {
        Some(WriteError::SectionSize)
    } else if index.quantizer_centroids@.len() != index.nlist * index.d {
        Some(WriteError::CentroidShape)
    } else if index.nlist * index.padded_d > limit {
        Some(WriteError::SectionSize)
    } else if index.rotated_centroids@.len() != index.nlist * index.padded_d {
        Some(WriteError::CentroidShape)
    } else if index.ids@.len() != index.nlist || index.codes@.len() != index.nlist
        || index.factors@.len() != index.nlist {
        Some(WriteError::ListStorage)
    } else {
        storage_problem(index, index.nlist as nat)
    }
}

proof fn lemma_storage_problem_stays(index: IVFRQIndex, a: nat, b: nat)
    requires
        a <= b,
        storage_problem(index, a) is Some,
    ensures
        storage_problem(index, b) == storage_problem(index, a),
    decreases b,
{
    if a < b {
        lemma_storage_problem_stays(index, a, (b - 1) as nat);
    }
}

/// Checks the shape of an index before it is written.
pub fn validate_index_shape(index: &IVFRQIndex) -> (result: Result<(), WriteError>)
    requires
        index.quantizer.well_formed(),
        crate::rq::spec_padded_dimension(index.d as int) <= usize::MAX,
    ensures
        match result {
            Ok(_) => shape_problem(*index) is None,
            Err(error) => shape_problem(*index) == Some(error),
        },
{
    if index.d == 0 || index.nlist == 0 {
        return Err(WriteError::EmptyShape);
    }
    if !is_supported_rq_bits(index.bits) {
        return Err(WriteError::Bits);
    }
    if index.padded_d != padded_dimension(index.d) {
        return Err(WriteError::PaddedDimension);
    }
    if index.rotation_rounds != DEFAULT_RQ_ROTATION_ROUNDS {
        return Err(WriteError::RotationRounds);
    }
    let centroids: usize = match checked_section_size(index.nlist, index.d) {
        Ok(size) => size,
        Err(_) => return Err(WriteError::SectionSize),
    };
    if index.quantizer_centroids.len() != centroids {
        return Err(WriteError::CentroidShape);
    }
    let rotated: usize = match checked_section_size(index.nlist, index.padded_d) {
        Ok(size) => size,
        Err(_) => return Err(WriteError::SectionSize),
    };
    if index.rotated_centroids.len() != rotated {
        return Err(WriteError::CentroidShape);
    }
    if index.ids.len() != index.nlist || index.codes.len() != index.nlist || index.factors.len()
        != index.nlist {
        return Err(WriteError::ListStorage);
    }
    let code_size: usize = index.quantizer.code_size();
    let mut l: usize = 0;
    while l < index.nlist
        invariant
            l <= index.nlist,
            index.ids@.len() == index.nlist,
            index.codes@.len() == index.nlist,
            index.factors@.len() == index.nlist,
            code_size == index.spec_code_size(),
            shape_problem(*index) == storage_problem(*index, index.nlist as nat),
            storage_problem(*index, l as nat) is None,
        decreases index.nlist - l,
    {
        let count: usize = index.ids[l].len();
        let mut problem: Option<WriteError> = None;
        match checked_list_bytes(count, code_size) {
            Ok(size) => {
                if index.codes[l].len() != size {
                    problem = Some(WriteError::CodeLength { list: l });
                } else if index.factors[l].len() != count {
                    problem = Some(WriteError::FactorCount { list: l });
                }
            },
            Err(_) => {
                problem = Some(WriteError::ListBytes);
            },
        }
        assert(storage_problem(*index, (l + 1) as nat) == problem);
        if let Some(error) = problem {
            proof {
                lemma_storage_problem_stays(*index, (l + 1) as nat, index.nlist as nat);
            }
            return Err(error);
        }
        l = l + 1;
    }
    Ok(())
}

/// Each list's rows by ascending id, equal ids as they stand in the list.
pub open spec fn sorted_orders(index: IVFRQIndex, orders: Seq<Vec<usize>>) -> bool {
    &&& orders.len() == index.ids@.len()
    &&& forall|l: int|
        0 <= l < orders.len() ==> crate::order::is_stable_order(
            index.ids@[l]@,
            (#[trigger] orders[l])@,
        )
}

/// The order in which each list is written.
pub fn plan_sorted_lists(index: &IVFRQIndex) -> (orders: Vec<Vec<usize>>)
    ensures
        sorted_orders(*index, orders@),
{
    let mut orders: Vec<Vec<usize>> = Vec::new();
    let mut l: usize = 0;
    while l < index.ids.len()
        invariant
            l <= index.ids@.len(),
            orders@.len() == l,
            forall|k: int|
                0 <= k < l ==> crate::order::is_stable_order(
                    index.ids@[k]@,
                    (#[trigger] orders@[k])@,
                ),
        decreases index.ids@.len() - l,
    {
        orders.push(stable_order(index.ids[l].as_slice()));
        l = l + 1;
    }
    orders
}

/// The ids of a list as they are stored: a first id and the coded differences.
#[derive(Debug)]
pub struct EncodedIds {
    pub base_id: i64,
    pub bytes: Vec<u8>,
}

/// The bytes of a list's payload.
pub open spec fn list_size(index: IVFRQIndex, encoded: Seq<EncodedIds>, list: int) -> int {
    let count = index.ids@[list]@.len() as int;
    if count == 0 {
        0
    } else {
        16 + encoded[list].bytes@.len() + count * index.spec_code_size() + count
            * crate::rq::spec_factor_fields(index.bits as int) * 4
    }
}

/// Where the payload of a list begins.
pub open spec fn list_offset(
    index: IVFRQIndex,
    encoded: Seq<EncodedIds>,
    base: int,
    list: nat,
) -> int
    decreases list,
{
    if list == 0 {
        base
    } else {
        list_offset(index, encoded, base, (list - 1) as nat) + list_size(index, encoded, list - 1)
    }
}

/// The table entry of a list.
pub open spec fn list_entry(
    index: IVFRQIndex,
    encoded: Seq<EncodedIds>,
    base: int,
    list: int,
) -> ListEntry {
    ListEntry {
        offset: list_offset(index, encoded, base, list as nat) as i64,
        count: index.ids@[list]@.len() as i32,
        id_bytes: encoded[list].bytes@.len() as i32,
    }
}

/// What keeps a list from having a table entry.
pub open spec fn entry_problem(
    index: IVFRQIndex,
    encoded: Seq<EncodedIds>,
    base: int,
    list: int,
) -> Option<WriteError> {
    let count = index.ids@[list]@.len() as int;
    let fields = crate::rq::spec_factor_fields(index.bits as int);
    if list_offset(index, encoded, base, list as nat) > i64::MAX {
        Some(WriteError::ListOffset)
    } else if count > i32::MAX {
        Some(WriteError::ListCount)
    } else if encoded[list].bytes@.len() > i32::MAX {
        Some(WriteError::IdBytes)
    } else if count == 0 {
        None
    } else if count * index.spec_code_size() > usize::MAX || count * fields > usize::MAX || count
        * fields * 4 > usize::MAX {
        Some(WriteError::ListBytes)
    } else if list_size(index, encoded, list) > usize::MAX {
        Some(WriteError::ListSize)
    } else if list_offset(index, encoded, base, (list + 1) as nat) > u64::MAX {
        Some(WriteError::ListOffsetOverflow)
    } else {
        None
    }
}

/// The first problem among the table entries of the first `n` lists.
pub open spec fn entries_problem(
    index: IVFRQIndex,
    encoded: Seq<EncodedIds>,
    base: int,
    n: nat,
) -> Option<WriteError>
    decreases n,
{
    if n == 0 {
        None
    } else {
        match entries_problem(index, encoded, base, (n - 1) as nat) {
            Some(error) => Some(error),
            None => entry_problem(index, encoded, base, n - 1),
        }
    }
}

proof fn lemma_entries_problem_stays(
    index: IVFRQIndex,
    encoded: Seq<EncodedIds>,
    base: int,
    a: nat,
    b: nat,
)
    requires
        a <= b,
        entries_problem(index, encoded, base, a) is Some,
    ensures
        entries_problem(index, encoded, base, b) == entries_problem(index, encoded, base, a),
    decreases b,
{
    if a < b {
        lemma_entries_problem_stays(index, encoded, base, a, (b - 1) as nat);
    }
}

/// Plans where each list goes, one after the other from `base` on; a list
/// without rows takes no room.
#[verifier::spinoff_prover]
pub fn plan_entries(index: &IVFRQIndex, encoded: &Vec<EncodedIds>, base: u64) -> (result: Result<
    Vec<ListEntry>,
    WriteError,
>)
    requires
        index.well_formed(),
        encoded@.len() == index.nlist,
    ensures
        match result {
            Ok(entries) => {
                &&& entries_problem(*index, encoded@, base as int, index.nlist as nat) is None
                &&& entries@.len() == index.nlist
                &&& forall|l: int|
                    0 <= l < index.nlist ==> #[trigger] entries@[l] == list_entry(
                        *index,
                        encoded@,
                        base as int,
                        l,
                    )
            },
            Err(error) => entries_problem(*index, encoded@, base as int, index.nlist as nat)
                == Some(error),
        },
{
    let code_size: usize = index.quantizer.code_size();
    let fields: usize = if index.bits == 1 {
        2
    } else {
        5
    };
    let mut entries: Vec<ListEntry> = Vec::new();
    let mut current: u64 = base;
    let mut l: usize = 0;
    while l < index.nlist
        invariant
            l <= index.nlist,
            index.well_formed(),
            encoded@.len() == index.nlist,
            code_size == index.spec_code_size(),
            fields == crate::rq::spec_factor_fields(index.bits as int),
            entries@.len() == l,
            current == list_offset(*index, encoded@, base as int, l as nat),
            entries_problem(*index, encoded@, base as int, l as nat) is None,
            forall|k: int|
                0 <= k < l ==> #[trigger] entries@[k] == list_entry(
                    *index,
                    encoded@,
                    base as int,
                    k,
                ),
        decreases index.nlist - l,
    {
        let count: usize = index.ids[l].len();
        let id_len: usize = encoded[l].bytes.len();
        let step: Result<u64, WriteError> = next_offset(current, count, id_len, code_size, fields);
        proof {
            assert(count * fields * 4 == (count * fields) * 4);
            assert(step matches Err(error) ==> entry_problem(
                *index,
                encoded@,
                base as int,
                l as int,
            ) == Some(error));
            assert(step is Ok ==> entry_problem(*index, encoded@, base as int, l as int) is None);
        }
        match step {
            Err(error) => {
                proof {
                    lemma_entries_problem_stays(
                        *index,
                        encoded@,
                        base as int,
                        (l + 1) as nat,
                        index.nlist as nat,
                    );
                }
                return Err(error);
            },
            Ok(next) => {
                entries.push(
                    ListEntry { offset: current as i64, count: count as i32, id_bytes: id_len as i32 },
                );
                current = next;
            },
        }
        l = l + 1;
    }
    Ok(entries)
}

/// The offset after a list, or what keeps it from having an entry.
fn next_offset(
    current: u64,
    count: usize,
    id_len: usize,
    code_size: usize,
    fields: usize,
) -> (result: Result<u64, WriteError>)
    ensures
        ({
            let size = 16 + id_len + count * code_size + count * fields * 4;
            let problem = if current > i64::MAX {
                Some(WriteError::ListOffset)
            } else if count > i32::MAX {
                Some(WriteError::ListCount)
            } else if id_len > i32::MAX {
                Some(WriteError::IdBytes)
            } else if count == 0 {
                None
            } else if count * code_size > usize::MAX || count * fields > usize::MAX || count
                * fields * 4 > usize::MAX {
                Some(WriteError::ListBytes)
            } else if size > usize::MAX {
                Some(WriteError::ListSize)
            } else if current + size > u64::MAX {
                Some(WriteError::ListOffsetOverflow)
            } else {
                None
            };
            match result {
                Ok(next) => problem is None && next == (if count == 0 {
                    current as int
                } else {
                    current + size
                }),
                Err(error) => problem == Some(error),
            }
        }),
{
    if current > i64::MAX as u64 {
        return Err(WriteError::ListOffset);
    }
    if count > i32::MAX as usize {
        return Err(WriteError::ListCount);
    }
    if id_len > i32::MAX as usize {
        return Err(WriteError::IdBytes);
    }
    if count == 0 {
        return Ok(current);
    }
    let code_bytes: usize = match checked_list_bytes(count, code_size) {
        Ok(size) => size,
        Err(_) => return Err(WriteError::ListBytes),
    };
    let factor_values: usize = match checked_list_bytes(count, fields) {
        Ok(size) => size,
        Err(_) => return Err(WriteError::ListBytes),
    };
    let factor_bytes: usize = match checked_list_bytes(factor_values, 4) {
        Ok(size) => size,
        Err(_) => return Err(WriteError::ListBytes),
    };
    let head: usize = match id_len.checked_add(16) {
        Some(size) => size,
        None => return Err(WriteError::ListSize),
    };
    let body: usize = match head.checked_add(code_bytes) {
        Some(size) => size,
        None => return Err(WriteError::ListSize),
    };
    let size: usize = match body.checked_add(factor_bytes) {
        Some(size) => size,
        None => return Err(WriteError::ListSize),
    };
    match current.checked_add(size as u64) {
        Some(next) => Ok(next),
        None => Err(WriteError::ListOffsetOverflow),
    }
}

/// What keeps an index of the right shape from being written at `start`,
/// before its lists are placed.
pub open spec fn header_problem(index: IVFRQIndex, start: int) -> Option<WriteError> {
    if crate::lists::count_rows(index.ids@, index.ids@.len()) > i64::MAX {
        Some(WriteError::TotalVectors)
    } else if index.d > i32::MAX {
        Some(WriteError::Dimension)
    } else if index.padded_d > i32::MAX {
        Some(WriteError::PaddedSize)
    } else if index.nlist > i32::MAX {
        Some(WriteError::ListCountField)
    } else if index.quantizer.spec_plane_size() > i32::MAX {
        Some(WriteError::PlaneSize)
    } else if index.nlist * 16 > usize::MAX {
        Some(WriteError::OffsetTable)
    } else if lists_base(index, start) > u64::MAX {
        Some(WriteError::DataOffset)
    } else {
        None
    }
}

/// Where the lists begin in a file that begins at `start`.
pub open spec fn lists_base(index: IVFRQIndex, start: int) -> int {
    start + IVF_RQ_HEADER_SIZE + index.nlist * index.d * 4 + index.nlist * 16
}

/// Everything that keeps an index from being written.
pub open spec fn write_problem(
    index: IVFRQIndex,
    encoded: Seq<EncodedIds>,
    start: int,
) -> Option<WriteError> {
    match shape_problem(index) {
        Some(error) => Some(error),
        None => match header_problem(index, start) {
            Some(error) => Some(error),
            None => match entries_problem(
                index,
                encoded,
                lists_base(index, start),
                index.nlist as nat,
            ) {
                Some(error) => Some(error),
                None => codes_problem(index, index.nlist as nat),
            },
        },
    }
}

/// The codes of one of the first `n` lists are too long for their length
/// field.
pub open spec fn codes_problem(index: IVFRQIndex, n: nat) -> Option<WriteError>
    decreases n,
{
    if n == 0 {
        None
    } else {
        match codes_problem(index, (n - 1) as nat) {
            Some(error) => Some(error),
            None => if index.codes@[n - 1]@.len() > i32::MAX {
                Some(WriteError::CodeBytes)
            } else {
                None
            },
        }
    }
}

/// The header of a written index.
pub open spec fn written_header(index: IVFRQIndex, metric_code: u32) -> RQHeader {
    RQHeader {
        d: index.d,
        padded_d: index.padded_d,
        nlist: index.nlist,
        metric_code,
        num_bits: index.bits,
        total_vectors: crate::lists::count_rows(index.ids@, index.ids@.len()) as i64,
        rotation_seed: index.rotation_seed,
        rotation_rounds: index.rotation_rounds,
        plane_size: index.quantizer.spec_plane_size(),
        rotation_type: IVF_RQ_ROTATION_TYPE_BLOCK_FHT,
        factor_layout: IVF_RQ_FACTOR_LAYOUT_COMPACT_V1,
    }
}

/// `codes` and `factors` are the stored codes and factors of a list in the
/// block layout.
pub open spec fn list_blocked(
    index: IVFRQIndex,
    orders: Seq<Vec<usize>>,
    list: int,
    codes: Seq<u8>,
    factors: Seq<u32>,
) -> bool {
    &&& crate::blocks::is_blocked(
        index.codes@[list]@,
        orders[list]@,
        index.spec_code_size(),
        codes,
    )
    &&& crate::blocks::is_blocked(
        crate::blocks::factor_rows(index.factors@[list]@, index.bits as int),
        orders[list]@,
        crate::rq::spec_factor_fields(index.bits as int),
        factors,
    )
}

/// The payloads of the first `n` lists, one after the other; a list without
/// rows has none.
pub open spec fn payloads(
    index: IVFRQIndex,
    encoded: Seq<EncodedIds>,
    codes: Seq<Seq<u8>>,
    factors: Seq<Seq<u32>>,
    n: nat,
) -> Seq<u8>
    decreases n,
{
    if n == 0 {
        Seq::empty()
    } else {
        let before = payloads(index, encoded, codes, factors, (n - 1) as nat);
        if index.ids@[n - 1]@.len() == 0 {
            before
        } else {
            before + crate::ivfrq_io::payload_of(
                encoded[n - 1].base_id,
                encoded[n - 1].bytes@,
                codes[n - 1],
                factors[n - 1],
            )
        }
    }
}

/// The table entries of a written index.
pub open spec fn written_entries(
    index: IVFRQIndex,
    encoded: Seq<EncodedIds>,
    start: int,
) -> Seq<ListEntry> {
    Seq::new(
        index.nlist as nat,
        |l: int| list_entry(index, encoded, lists_base(index, start), l),
    )
}

/// The bytes of a written index.
pub open spec fn file_bytes(
    index: IVFRQIndex,
    metric_code: u32,
    encoded: Seq<EncodedIds>,
    start: int,
    codes: Seq<Seq<u8>>,
    factors: Seq<Seq<u32>>,
) -> Seq<u8> {
    crate::bytes::bytes_of_words(
        crate::ivfrq_io::header_words(written_header(index, metric_code)),
    ) + crate::bytes::bytes_of_words(index.quantizer_centroids@) + crate::bytes::bytes_of_words(
        crate::ivfrq_io::table_words(written_entries(index, encoded, start)),
    ) + payloads(index, encoded, codes, factors, index.nlist as nat)
}

/// The file of an index: header, centroids, list table and the lists in the
/// block layout.
pub open spec fn is_file(
    index: IVFRQIndex,
    metric_code: u32,
    orders: Seq<Vec<usize>>,
    encoded: Seq<EncodedIds>,
    start: int,
    file: Seq<u8>,
) -> bool {
    exists|codes: Seq<Seq<u8>>, factors: Seq<Seq<u32>>|
        {
            &&& codes.len() == index.nlist
            &&& factors.len() == index.nlist
            &&& forall|l: int|
                0 <= l < index.nlist && index.ids@[l]@.len() > 0 ==> list_blocked(
                    index,
                    orders,
                    l,
                    #[trigger] codes[l],
                    factors[l],
                )
            &&& file == #[trigger] file_bytes(index, metric_code, encoded, start, codes, factors)
        }
}

fn append_bytes(out: &mut Vec<u8>, bytes: &Vec<u8>)
    ensures
        final(out)@ == old(out)@ + bytes@,
{
    assert(out@ + bytes@.take(0) =~= out@);
    let mut i: usize = 0;
    while i < bytes.len()
        invariant
            i <= bytes@.len(),
            out@ == old(out)@ + bytes@.take(i as int),
        decreases bytes@.len() - i,
    {
        out.push(bytes[i]);
        assert(out@ =~= old(out)@ + bytes@.take(i + 1));
        i = i + 1;
    }
    assert(bytes@.take(bytes@.len() as int) =~= bytes@);
}

/// Counts the rows, if they fit a signed 64-bit number.
fn checked_total(ids: &Vec<Vec<i64>>) -> (total: Option<i64>)
    ensures
        match total {
            Some(count) => count == crate::lists::count_rows(ids@, ids@.len()),
            None => crate::lists::count_rows(ids@, ids@.len()) > i64::MAX,
        },
{
    let mut total: i64 = 0;
    let mut l: usize = 0;
    while l < ids.len()
        invariant
            l <= ids@.len(),
            0 <= total,
            total == crate::lists::count_rows(ids@, l as nat),
        decreases ids@.len() - l,
    {
        let count: usize = ids[l].len();
        proof {
            crate::lists::lemma_count_rows_monotone(ids@, (l + 1) as nat, ids@.len());
        }
        let wide: u64 = count as u64;
        if wide > (i64::MAX - total) as u64 {
            return None;
        }
        total = total + wide as i64;
        l = l + 1;
    }
    Some(total)
}

/// Writes an index whose file begins at position `start`. `orders` is the
/// order of each list's rows, and `encoded` their ids in that order.
#[verifier::spinoff_prover]
#[verifier::rlimit(40)]
pub fn write_ivfrq_index(
    index: &IVFRQIndex,
    metric_code: u32,
    orders: &Vec<Vec<usize>>,
    encoded: &Vec<EncodedIds>,
    start: u64,
) -> (result: Result<Vec<u8>, WriteError>)
    requires
        index.well_formed(),
        sorted_orders(*index, orders@),
        encoded@.len() == index.nlist,
    ensures
        match result {
            Ok(file) => write_problem(*index, encoded@, start as int) is None && is_file(
                *index,
                metric_code,
                orders@,
                encoded@,
                start as int,
                file@,
            ),
            Err(error) => write_problem(*index, encoded@, start as int) == Some(error),
        },
{
    match validate_index_shape(index) {
        Ok(_) => {},
        Err(error) => return Err(error),
    }
    let total_vectors: i64 = match checked_total(&index.ids) {
        Some(total) => total,
        None => return Err(WriteError::TotalVectors),
    };
    let plane_size: usize = index.quantizer.plane_size();
    if index.d > i32::MAX as usize {
        return Err(WriteError::Dimension);
    }
    if index.padded_d > i32::MAX as usize {
        return Err(WriteError::PaddedSize);
    }
    if index.nlist > i32::MAX as usize {
        return Err(WriteError::ListCountField);
    }
    if plane_size > i32::MAX as usize {
        return Err(WriteError::PlaneSize);
    }
    let header = RQHeader {
        d: index.d,
        padded_d: index.padded_d,
        nlist: index.nlist,
        metric_code,
        num_bits: index.bits,
        total_vectors,
        rotation_seed: index.rotation_seed,
        rotation_rounds: index.rotation_rounds,
        plane_size,
        rotation_type: IVF_RQ_ROTATION_TYPE_BLOCK_FHT,
        factor_layout: IVF_RQ_FACTOR_LAYOUT_COMPACT_V1,
    };
    let mut out: Vec<u8> = Vec::new();
    write_header(&mut out, &header);
    push_words(&mut out, index.quantizer_centroids.as_slice());
    let table_bytes: usize = match index.nlist.checked_mul(16) {
        Some(size) => size,
        None => return Err(WriteError::OffsetTable),
    };
    let centroid_count: usize = index.quantizer_centroids.len();
    assert(centroid_count == index.nlist * index.d);
    let head: u64 = 64 + centroid_count as u64 * 4;
    let base: u64 = match start.checked_add(head) {
        Some(sum) => match sum.checked_add(table_bytes as u64) {
            Some(base) => base,
            None => return Err(WriteError::DataOffset),
        },
        None => return Err(WriteError::DataOffset),
    };
    assert(base == lists_base(*index, start as int));
    let entries: Vec<ListEntry> = match plan_entries(index, encoded, base) {
        Ok(entries) => entries,
        Err(error) => return Err(error),
    };
    assert(entries@ =~= written_entries(*index, encoded@, start as int));
    write_list_table(&mut out, entries.as_slice());
    let ghost front = out@;
    let ghost mut codes: Seq<Seq<u8>> = Seq::empty();
    let ghost mut factors: Seq<Seq<u32>> = Seq::empty();
    let code_size: usize = index.quantizer.code_size();
    assert(front + Seq::<u8>::empty() =~= front);
    let mut l: usize = 0;
    while l < index.nlist
        invariant
            l <= index.nlist,
            index.well_formed(),
            sorted_orders(*index, orders@),
            encoded@.len() == index.nlist,
            code_size == index.spec_code_size(),
            write_problem(*index, encoded@, start as int) == codes_problem(
                *index,
                index.nlist as nat,
            ),
            entries_problem(
                *index,
                encoded@,
                lists_base(*index, start as int),
                index.nlist as nat,
            ) is None,
            codes_problem(*index, l as nat) is None,
            codes.len() == l,
            factors.len() == l,
            forall|k: int|
                0 <= k < l && index.ids@[k]@.len() > 0 ==> list_blocked(
                    *index,
                    orders@,
                    k,
                    #[trigger] codes[k],
                    factors[k],
                ),
            out@ == front + payloads(*index, encoded@, codes, factors, l as nat),
        decreases index.nlist - l,
    {
        let count: usize = index.ids[l].len();
        let list_codes = &index.codes[l];
        assert(list_codes@.len() == index.ids@[l as int]@.len() * index.spec_code_size());
        proof {
            lemma_no_entry_problem(
                *index,
                encoded@,
                lists_base(*index, start as int),
                l as int,
                index.nlist as nat,
            );
        }
        if list_codes.len() > i32::MAX as usize {
            proof {
                assert(codes_problem(*index, (l + 1) as nat) == Some(WriteError::CodeBytes));
                lemma_codes_problem_stays(*index, (l + 1) as nat, index.nlist as nat);
            }
            return Err(WriteError::CodeBytes);
        }
        if count == 0 {
            proof {
                let more_codes = codes.push(Seq::empty());
                let more_factors = factors.push(Seq::empty());
                lemma_payloads_agree(
                    *index,
                    encoded@,
                    codes,
                    factors,
                    more_codes,
                    more_factors,
                    l as nat,
                );
                codes = more_codes;
                factors = more_factors;
            }
        } else {
            let order = &orders[l];
            proof {
                assert(crate::order::is_stable_order(index.ids@[l as int]@, order@));
                assert(index.factors@[l as int]@.len() == count);
            }
            let (blocked_codes, blocked_factors) = block_list(
                list_codes.as_slice(),
                index.factors[l].as_slice(),
                order.as_slice(),
                code_size,
                index.bits,
            );
            let ids = &encoded[l];
            let ghost before = out@;
            push_i64(&mut out, ids.base_id);
            push_i32(&mut out, ids.bytes.len() as i32);
            push_i32(&mut out, blocked_codes.len() as i32);
            append_bytes(&mut out, &ids.bytes);
            append_bytes(&mut out, &blocked_codes);
            push_words(&mut out, blocked_factors.as_slice());
            proof {
                let more_codes = codes.push(blocked_codes@);
                let more_factors = factors.push(blocked_factors@);
                lemma_payloads_agree(
                    *index,
                    encoded@,
                    codes,
                    factors,
                    more_codes,
                    more_factors,
                    l as nat,
                );
                let payload = crate::ivfrq_io::payload_of(
                    ids.base_id,
                    ids.bytes@,
                    blocked_codes@,
                    blocked_factors@,
                );
                assert(out@ =~= before + payload);
                assert(before + payload =~= front + (payloads(
                    *index,
                    encoded@,
                    more_codes,
                    more_factors,
                    l as nat,
                ) + payload));
                codes = more_codes;
                factors = more_factors;
            }
        }
        l = l + 1;
    }
    proof {
        assert(out@ =~= file_bytes(
            *index,
            metric_code,
            encoded@,
            start as int,
            codes,
            factors,
        ));
    }
    Ok(out)
}

proof fn lemma_no_entry_problem(
    index: IVFRQIndex,
    encoded: Seq<EncodedIds>,
    base: int,
    list: int,
    n: nat,
)
    requires
        0 <= list < n,
        entries_problem(index, encoded, base, n) is None,
    ensures
        entry_problem(index, encoded, base, list) is None,
    decreases n,
{
    if list < n - 1 {
        lemma_no_entry_problem(index, encoded, base, list, (n - 1) as nat);
    }
}

proof fn lemma_codes_problem_stays(index: IVFRQIndex, a: nat, b: nat)
    requires
        a <= b,
        codes_problem(index, a) is Some,
    ensures
        codes_problem(index, b) == codes_problem(index, a),
    decreases b,
{
    if a < b {
        lemma_codes_problem_stays(index, a, (b - 1) as nat);
    }
}

proof fn lemma_payloads_agree(
    index: IVFRQIndex,
    encoded: Seq<EncodedIds>,
    codes: Seq<Seq<u8>>,
    factors: Seq<Seq<u32>>,
    more_codes: Seq<Seq<u8>>,
    more_factors: Seq<Seq<u32>>,
    n: nat,
)
    requires
        n <= codes.len() <= more_codes.len(),
        n <= factors.len() <= more_factors.len(),
        forall|l: int| 0 <= l < n ==> #[trigger] more_codes[l] == codes[l],
        forall|l: int| 0 <= l < n ==> #[trigger] more_factors[l] == factors[l],
    ensures
        payloads(index, encoded, codes, factors, n) == payloads(
            index,
            encoded,
            more_codes,
            more_factors,
            n,
        ),
    decreases n,
{
    if n > 0 {
        lemma_payloads_agree(
            index,
            encoded,
            codes,
            factors,
            more_codes,
            more_factors,
            (n - 1) as nat,
        );
        assert(more_codes[n - 1] == codes[n - 1]);
        assert(more_factors[n - 1] == factors[n - 1]);
    }
}

/// The stored codes and factors have the sizes that the table says.
pub open spec fn parts_fit(
    index: IVFRQIndex,
    codes: Seq<Seq<u8>>,
    factors: Seq<Seq<u32>>,
) -> bool {
    &&& codes.len() == index.nlist
    &&& factors.len() == index.nlist
    &&& forall|l: int|
        #![trigger codes[l]]
        0 <= l < index.nlist && index.ids@[l]@.len() > 0 ==> codes[l].len()
            == index.ids@[l]@.len() * index.spec_code_size() && factors[l].len()
            == index.ids@[l]@.len() * crate::rq::spec_factor_fields(index.bits as int)
}

proof fn lemma_payload_len(
    index: IVFRQIndex,
    encoded: Seq<EncodedIds>,
    codes: Seq<Seq<u8>>,
    factors: Seq<Seq<u32>>,
    list: int,
)
    requires
        parts_fit(index, codes, factors),
        0 <= list < index.nlist,
        index.ids@[list]@.len() > 0,
    ensures
        crate::ivfrq_io::payload_of(
            encoded[list].base_id,
            encoded[list].bytes@,
            codes[list],
            factors[list],
        ).len() == list_size(index, encoded, list),
{
    crate::bytes::lemma_word_bytes(factors[list]);
    let count = index.ids@[list]@.len();
    let fields = crate::rq::spec_factor_fields(index.bits as int);
    assert(codes[list].len() == count * index.spec_code_size());
    assert(4 * (count * fields) == count * fields * 4) by (nonlinear_arith);
}

/// The payload of a list stands where its table entry says.
proof fn lemma_payload_place(
    index: IVFRQIndex,
    encoded: Seq<EncodedIds>,
    codes: Seq<Seq<u8>>,
    factors: Seq<Seq<u32>>,
    base: int,
    list: int,
    n: nat,
)
    requires
        parts_fit(index, codes, factors),
        n <= index.nlist,
        0 <= list < n,
    ensures
        payloads(index, encoded, codes, factors, n).len() == list_offset(index, encoded, base, n)
            - base,
        0 <= list_offset(index, encoded, base, list as nat) - base,
        list_offset(index, encoded, base, list as nat) - base + list_size(index, encoded, list)
            <= payloads(index, encoded, codes, factors, n).len(),
        index.ids@[list]@.len() > 0 ==> payloads(index, encoded, codes, factors, n).subrange(
            list_offset(index, encoded, base, list as nat) - base,
            list_offset(index, encoded, base, list as nat) - base + list_size(
                index,
                encoded,
                list,
            ),
        ) == crate::ivfrq_io::payload_of(
            encoded[list].base_id,
            encoded[list].bytes@,
            codes[list],
            factors[list],
        ),
    decreases n,
{
    let m = (n - 1) as nat;
    let before = payloads(index, encoded, codes, factors, m);
    let all = payloads(index, encoded, codes, factors, n);
    if m > 0 {
        lemma_payload_place(
            index,
            encoded,
            codes,
            factors,
            base,
            if list < m {
                list
            } else {
                0
            },
            m,
        );
    }
    if index.ids@[m as int]@.len() > 0 {
        lemma_payload_len(index, encoded, codes, factors, m as int);
    }
    let from = list_offset(index, encoded, base, list as nat) - base;
    let to = from + list_size(index, encoded, list);
    if list < m {
        assert(all.subrange(from, to) =~= before.subrange(from, to));
    } else if index.ids@[list]@.len() > 0 {
        assert(all.subrange(from, to) =~= crate::ivfrq_io::payload_of(
            encoded[list].base_id,
            encoded[list].bytes@,
            codes[list],
            factors[list],
        ));
    }
}

proof fn lemma_table_totals(index: IVFRQIndex, encoded: Seq<EncodedIds>, start: int, n: nat)
    requires
        n <= index.nlist,
        index.ids@.len() == index.nlist,
        entries_problem(
            index,
            encoded,
            lists_base(index, start),
            index.nlist as nat,
        ) is None,
    ensures
        ({
            let table = crate::bytes::bytes_of_words(
                crate::ivfrq_io::table_words(written_entries(index, encoded, start)),
            );
            &&& crate::ivfrq_io::table_problem(table, n) is None
            &&& crate::ivfrq_io::count_total(table, n) == crate::lists::count_rows(index.ids@, n)
        }),
    decreases n,
{
    if n > 0 {
        lemma_table_totals(index, encoded, start, (n - 1) as nat);
        let entries = written_entries(index, encoded, start);
        crate::ivfrq_io::law_list_table_round_trip(entries, n - 1);
        lemma_no_entry_problem(
            index,
            encoded,
            lists_base(index, start),
            n - 1,
            index.nlist as nat,
        );
    }
}

/// A written index reads back: the header, the centroids, the list table and,
/// at the place that the table says, the payload of every list are those of
/// the index.
#[verifier::spinoff_prover]
#[verifier::rlimit(30)]
pub proof fn law_written_index_reads_back(
    index: IVFRQIndex,
    metric_code: u32,
    encoded: Seq<EncodedIds>,
    start: int,
    codes: Seq<Seq<u8>>,
    factors: Seq<Seq<u32>>,
    metrics: Seq<u32>,
    list: int,
)
    requires
        index.well_formed(),
        encoded.len() == index.nlist,
        0 <= start,
        write_problem(index, encoded, start) is None,
        parts_fit(index, codes, factors),
        metrics.contains(metric_code),
        0 <= list < index.nlist,
    ensures
        ({
            let file = file_bytes(index, metric_code, encoded, start, codes, factors);
            let head = file.take(64);
            let split = index.nlist * index.d * 4;
            let table_end = 64 + split + index.nlist * 16;
            let metadata = file.subrange(64, table_end);
            let table = metadata.skip(split);
            let entry = crate::ivfrq_io::entry_at(table, list);
            &&& table_end <= file.len()
            &&& crate::ivfrq_io::header_problem(head, metrics) is None
            &&& crate::ivfrq_io::header_fields(head) == written_header(index, metric_code)
            &&& crate::bytes::words_of(metadata.take(split)) == index.quantizer_centroids@
            &&& crate::ivfrq_io::table_problem(table, index.nlist as nat) is None
            &&& crate::ivfrq_io::count_total(table, index.nlist as nat) == written_header(
                index,
                metric_code,
            ).total_vectors
            &&& entry.count == index.ids@[list]@.len()
            &&& entry.id_bytes == encoded[list].bytes@.len()
            &&& entry.count > 0 ==> {
                let from = entry.offset - start;
                &&& 0 <= from
                &&& from + list_size(index, encoded, list) <= file.len()
                &&& file.subrange(from, from + list_size(index, encoded, list))
                    == crate::ivfrq_io::payload_of(
                    encoded[list].base_id,
                    encoded[list].bytes@,
                    codes[list],
                    factors[list],
                )
            }
        }),
{
    let header = written_header(index, metric_code);
    let head_bytes = crate::bytes::bytes_of_words(crate::ivfrq_io::header_words(header));
    let centroid_bytes = crate::bytes::bytes_of_words(index.quantizer_centroids@);
    let entries = written_entries(index, encoded, start);
    let table_bytes = crate::bytes::bytes_of_words(crate::ivfrq_io::table_words(entries));
    let body = payloads(index, encoded, codes, factors, index.nlist as nat);
    let file = file_bytes(index, metric_code, encoded, start, codes, factors);
    let base = lists_base(index, start);
    let split = index.nlist * index.d * 4;
    let table_end = 64 + split + index.nlist * 16;
    assert(crate::ivfrq_io::header_valid(header, metrics));
    crate::ivfrq_io::law_header_round_trip(header, metrics);
    crate::bytes::lemma_word_bytes(index.quantizer_centroids@);
    crate::bytes::law_words_round_trip(index.quantizer_centroids@);
    crate::ivfrq_io::law_list_table_round_trip(entries, list);
    lemma_table_totals(index, encoded, start, index.nlist as nat);
    lemma_no_entry_problem(index, encoded, base, list, index.nlist as nat);
    lemma_payload_place(index, encoded, codes, factors, base, list, index.nlist as nat);
    assert(centroid_bytes.len() == split);
    assert(table_bytes.len() == index.nlist * 16);
    assert(head_bytes.len() == 64);
    let from = list_offset(index, encoded, base, list as nat) - base;
    let to = from + list_size(index, encoded, list);
    lemma_four_parts(head_bytes, centroid_bytes, table_bytes, body, from, to);
    assert(file == head_bytes + centroid_bytes + table_bytes + body);
    assert(base - start == table_end);
}

/// The parts of four strings written one after the other.
proof fn lemma_four_parts(
    a: Seq<u8>,
    b: Seq<u8>,
    c: Seq<u8>,
    d: Seq<u8>,
    from: int,
    to: int,
)
    requires
        0 <= from <= to <= d.len(),
    ensures
        ({
            let all = a + b + c + d;
            let end = (a.len() + b.len() + c.len()) as int;
            let middle = all.subrange(a.len() as int, end);
            &&& all.len() == end + d.len()
            &&& all.take(a.len() as int) == a
            &&& middle.take(b.len() as int) == b
            &&& middle.skip(b.len() as int) == c
            &&& all.subrange(end + from, end + to) == d.subrange(from, to)
        }),
{
    let all = a + b + c + d;
    let end = (a.len() + b.len() + c.len()) as int;
    let middle = all.subrange(a.len() as int, end);
    assert(all.take(a.len() as int) =~= a);
    assert(middle.take(b.len() as int) =~= b);
    assert(middle.skip(b.len() as int) =~= c);
    assert(all.subrange(end + from, end + to) =~= d.subrange(from, to));
}

} // verus!
