//! The file format of residual-quantized indexes: a header, the centroids and
//! the list table, and the lists in the block layout.
use crate::bytes::{push_words, read_i32, read_i64, read_u32, read_u64, read_words};
use crate::rq::{is_supported_rq_bits, padded_dimension, DEFAULT_RQ_ROTATION_ROUNDS};
use vstd::prelude::*;

verus! {

/// "IVRQ".
pub const IVF_RQ_MAGIC: u32 = 0x4956_5251;

pub const IVF_RQ_VERSION: u32 = 1;

pub const IVF_RQ_HEADER_SIZE: usize = 64;

pub const IVF_RQ_ROTATION_TYPE_BLOCK_FHT: u32 = 2;

pub const IVF_RQ_FACTOR_LAYOUT_COMPACT_V1: u32 = 3;

/// Delta-coded ids, block-transposed codes and block-wise factor columns.
pub const REQUIRED_FLAGS: u32 = 7;

/// Largest number of bytes of a batch of lists that are read together.
pub const MAX_RQ_BATCH_READ_BYTES: usize = 67108864;

/// Largest number of values of a section.
pub const MAX_SECTION_VALUES: usize = 1073741824;

/// What the header says.
#[derive(Debug, Clone, Copy, PartialEq, Eq, Structural)]
pub struct RQHeader {
    pub d: usize,
    pub padded_d: usize,
    pub nlist: usize,
    pub metric_code: u32,
    pub num_bits: usize,
    pub total_vectors: i64,
    pub rotation_seed: u64,
    pub rotation_rounds: u32,
    pub plane_size: usize,
    pub rotation_type: u32,
    pub factor_layout: u32,
}

/// Why a header is refused.
#[derive(Debug, Clone, Copy, PartialEq, Eq, Structural)]
pub enum HeaderError {
    /// `invalid IVF-RQ magic`
    Magic { magic: u32 },
    /// `unsupported IVF-RQ version`
    Version { version: u32 },
    /// `invalid IVF-RQ dimension`
    Dimension { value: i32 },
    /// `invalid IVF-RQ padded_dimension`
    PaddedDimension { value: i32 },
    /// `IVF-RQ padded_dimension does not match dimension-derived`
    PaddedDimensionMismatch { padded: usize, derived: usize },
    /// `invalid IVF-RQ nlist`
    ListCount { value: i32 },
    /// `unknown metric type`
    Metric { code: u32 },
    /// `invalid IVF-RQ plane_size`
    PlaneSize { value: i32 },
    /// `negative IVF-RQ vector count`
    VectorCount,
    /// `IVF-RQ plane size does not match padded dimension`
    PlaneSizeMismatch { plane_size: usize, padded: usize },
    /// `unsupported IVF-RQ bits; expected 1..=8`
    Bits { bits: usize },
    /// `unsupported IVF-RQ rotation rounds`
    RotationRounds { rounds: u32 },
    /// `unsupported IVF-RQ rotation type`
    RotationType { rotation_type: u32 },
    /// `unsupported IVF-RQ factor layout`
    FactorLayout { layout: u32 },
    /// `unsupported IVF-RQ flags`
    Flags { flags: u32 },
}

/// The signed number at a place of the header.
pub open spec fn signed_at(bytes: Seq<u8>, at: int) -> int {
    crate::bytes::signed32(crate::bytes::le32(bytes, at))
}

/// What is wrong with a header, in the order in which it is read and checked.
pub open spec fn header_problem(bytes: Seq<u8>, metrics: Seq<u32>) -> Option<HeaderError> {
    let magic = crate::bytes::le32(bytes, 0);
    let version = crate::bytes::le32(bytes, 4);
    let d = signed_at(bytes, 8);
    let padded = signed_at(bytes, 12);
    let nlist = signed_at(bytes, 16);
    let metric = crate::bytes::le32(bytes, 20);
    let flags = crate::bytes::le32(bytes, 24);
    let bits = crate::bytes::le32(bytes, 28);
    let total = crate::bytes::signed64(crate::bytes::le64(bytes, 32));
    let rounds = crate::bytes::le32(bytes, 48);
    let plane_size = signed_at(bytes, 52);
    let rotation_type = crate::bytes::le32(bytes, 56);
    let layout = crate::bytes::le32(bytes, 60);
    if magic != IVF_RQ_MAGIC {
        Some(HeaderError::Magic { magic: magic as u32 })
    } else if version != IVF_RQ_VERSION {
        Some(HeaderError::Version { version: version as u32 })
    } else if d <= 0 {
        Some(HeaderError::Dimension { value: d as i32 })
    } else if padded <= 0 {
        Some(HeaderError::PaddedDimension { value: padded as i32 })
    } else if padded != crate::rq::spec_padded_dimension(d) {
        Some(
            HeaderError::PaddedDimensionMismatch {
                padded: padded as usize,
                derived: crate::rq::spec_padded_dimension(d) as usize,
            },
        )
    } else if nlist <= 0 {
        Some(HeaderError::ListCount { value: nlist as i32 })
    } else if !metrics.contains(metric as u32) {
        Some(HeaderError::Metric { code: metric as u32 })
    } else if plane_size <= 0 {
        Some(HeaderError::PlaneSize { value: plane_size as i32 })
    } else if total < 0 {
        Some(HeaderError::VectorCount)
    } else if plane_size != padded / 8 {
        Some(
            HeaderError::PlaneSizeMismatch {
                plane_size: plane_size as usize,
                padded: padded as usize,
            },
        )
    } else if !(1 <= bits <= 8) {
        Some(HeaderError::Bits { bits: bits as usize })
    } else if rounds != DEFAULT_RQ_ROTATION_ROUNDS {
        Some(HeaderError::RotationRounds { rounds: rounds as u32 })
    } else if rotation_type != IVF_RQ_ROTATION_TYPE_BLOCK_FHT {
        Some(HeaderError::RotationType { rotation_type: rotation_type as u32 })
    } else if layout != IVF_RQ_FACTOR_LAYOUT_COMPACT_V1 {
        Some(HeaderError::FactorLayout { layout: layout as u32 })
    } else if flags != REQUIRED_FLAGS {
        Some(HeaderError::Flags { flags: flags as u32 })
    } else {
        None
    }
}

/// What a header without problems says.
pub open spec fn header_fields(bytes: Seq<u8>) -> RQHeader {
    RQHeader {
        d: signed_at(bytes, 8) as usize,
        padded_d: signed_at(bytes, 12) as usize,
        nlist: signed_at(bytes, 16) as usize,
        metric_code: crate::bytes::le32(bytes, 20) as u32,
        num_bits: crate::bytes::le32(bytes, 28) as usize,
        total_vectors: crate::bytes::signed64(crate::bytes::le64(bytes, 32)) as i64,
        rotation_seed: crate::bytes::le64(bytes, 40) as u64,
        rotation_rounds: crate::bytes::le32(bytes, 48) as u32,
        plane_size: signed_at(bytes, 52) as usize,
        rotation_type: crate::bytes::le32(bytes, 56) as u32,
        factor_layout: crate::bytes::le32(bytes, 60) as u32,
    }
}

fn is_known_metric(metrics: &[u32], code: u32) -> (known: bool)
    ensures
        known == metrics@.contains(code),
{
    let mut i: usize = 0;
    while i < metrics.len()
        invariant
            i <= metrics@.len(),
            forall|j: int| 0 <= j < i ==> metrics@[j] != code,
        decreases metrics@.len() - i,
    {
        if metrics[i] == code {
            assert(metrics@[i as int] == code);
            return true;
        }
        i = i + 1;
    }
    false
}

/// Reads a header; `metrics` are the known metric codes.
pub fn parse_header(bytes: &[u8], metrics: &[u32]) -> (result: Result<RQHeader, HeaderError>)
    requires
        bytes@.len() == IVF_RQ_HEADER_SIZE,
    ensures
        match result {
            Ok(header) => header_problem(bytes@, metrics@) is None && header == header_fields(
                bytes@,
            ),
            Err(error) => header_problem(bytes@, metrics@) == Some(error),
        },
{
    let magic: u32 = read_u32(bytes, 0);
    if magic != IVF_RQ_MAGIC {
        return Err(HeaderError::Magic { magic });
    }
    let version: u32 = read_u32(bytes, 4);
    if version != IVF_RQ_VERSION {
        return Err(HeaderError::Version { version });
    }
    let d: i32 = read_i32(bytes, 8);
    if d <= 0 {
        return Err(HeaderError::Dimension { value: d });
    }
    let padded: i32 = read_i32(bytes, 12);
    if padded <= 0 {
        return Err(HeaderError::PaddedDimension { value: padded });
    }
    let derived: usize = padded_dimension(d as usize);
    if padded as usize != derived {
        return Err(HeaderError::PaddedDimensionMismatch { padded: padded as usize, derived });
    }
    let nlist: i32 = read_i32(bytes, 16);
    if nlist <= 0 {
        return Err(HeaderError::ListCount { value: nlist });
    }
    let metric_code: u32 = read_u32(bytes, 20);
    if !is_known_metric(metrics, metric_code) {
        return Err(HeaderError::Metric { code: metric_code });
    }
    let flags: u32 = read_u32(bytes, 24);
    let num_bits: usize = read_u32(bytes, 28) as usize;
    let total_vectors: i64 = read_i64(bytes, 32);
    let rotation_seed: u64 = read_u64(bytes, 40);
    let rotation_rounds: u32 = read_u32(bytes, 48);
    let plane_size: i32 = read_i32(bytes, 52);
    if plane_size <= 0 {
        return Err(HeaderError::PlaneSize { value: plane_size });
    }
    let rotation_type: u32 = read_u32(bytes, 56);
    let factor_layout: u32 = read_u32(bytes, 60);
    if total_vectors < 0 {
        return Err(HeaderError::VectorCount);
    }
    if plane_size as usize != padded as usize / 8 {
        return Err(
            HeaderError::PlaneSizeMismatch {
                plane_size: plane_size as usize,
                padded: padded as usize,
            },
        );
    }
    if !is_supported_rq_bits(num_bits) {
        return Err(HeaderError::Bits { bits: num_bits });
    }
    if rotation_rounds != DEFAULT_RQ_ROTATION_ROUNDS {
        return Err(HeaderError::RotationRounds { rounds: rotation_rounds });
    }
    if rotation_type != IVF_RQ_ROTATION_TYPE_BLOCK_FHT {
        return Err(HeaderError::RotationType { rotation_type });
    }
    if factor_layout != IVF_RQ_FACTOR_LAYOUT_COMPACT_V1 {
        return Err(HeaderError::FactorLayout { layout: factor_layout });
    }
    if flags != REQUIRED_FLAGS {
        return Err(HeaderError::Flags { flags });
    }
    Ok(
        RQHeader {
            d: d as usize,
            padded_d: padded as usize,
            nlist: nlist as usize,
            metric_code,
            num_bits,
            total_vectors,
            rotation_seed,
            rotation_rounds,
            plane_size: plane_size as usize,
            rotation_type,
            factor_layout,
        },
    )
}

/// The low and the high word of a 64-bit pattern.
pub open spec fn low_word(pattern: int) -> u32 {
    (pattern % 0x1_0000_0000) as u32
}

pub open spec fn high_word(pattern: int) -> u32 {
    (pattern / 0x1_0000_0000) as u32
}

/// The words of a header.
pub open spec fn header_words(header: RQHeader) -> Seq<u32> {
    seq![
        IVF_RQ_MAGIC,
        IVF_RQ_VERSION,
        header.d as u32,
        header.padded_d as u32,
        header.nlist as u32,
        header.metric_code,
        REQUIRED_FLAGS,
        header.num_bits as u32,
        low_word(crate::bytes::unsigned64(header.total_vectors as int)),
        high_word(crate::bytes::unsigned64(header.total_vectors as int)),
        low_word(header.rotation_seed as int),
        high_word(header.rotation_seed as int),
        header.rotation_rounds,
        header.plane_size as u32,
        header.rotation_type,
        header.factor_layout,
    ]
}

/// The numbers of a header fit their places.
pub open spec fn header_fits(header: RQHeader) -> bool {
    &&& header.d <= i32::MAX
    &&& header.padded_d <= i32::MAX
    &&& header.nlist <= i32::MAX
    &&& header.num_bits <= u32::MAX
    &&& header.plane_size <= i32::MAX
}

/// The header of an index that can be read.
pub open spec fn header_valid(header: RQHeader, metrics: Seq<u32>) -> bool {
    &&& header_fits(header)
    &&& header.d > 0
    &&& header.padded_d == crate::rq::spec_padded_dimension(header.d as int)
    &&& header.nlist > 0
    &&& metrics.contains(header.metric_code)
    &&& 1 <= header.num_bits <= 8
    &&& header.total_vectors >= 0
    &&& header.rotation_rounds == DEFAULT_RQ_ROTATION_ROUNDS
    &&& header.plane_size == header.padded_d / 8
    &&& header.rotation_type == IVF_RQ_ROTATION_TYPE_BLOCK_FHT
    &&& header.factor_layout == IVF_RQ_FACTOR_LAYOUT_COMPACT_V1
}

fn low_word_of(pattern: u64) -> (word: u32)
    ensures
        word == low_word(pattern as int),
{
    (pattern % 0x1_0000_0000) as u32
}

fn high_word_of(pattern: u64) -> (word: u32)
    ensures
        word == high_word(pattern as int),
{
    (pattern / 0x1_0000_0000) as u32
}

fn pattern_of(value: i64) -> (pattern: u64)
    ensures
        pattern == crate::bytes::unsigned64(value as int),
{
    if value >= 0 {
        value as u64
    } else {
        (value as i128 + 0x1_0000_0000_0000_0000) as u64
    }
}

/// Writes a header.
pub fn write_header(out: &mut Vec<u8>, header: &RQHeader)
    requires
        header_fits(*header),
    ensures
        final(out)@ == old(out)@ + crate::bytes::bytes_of_words(header_words(*header)),
{
    let total: u64 = pattern_of(header.total_vectors);
    let words: Vec<u32> = vec![
        IVF_RQ_MAGIC,
        IVF_RQ_VERSION,
        header.d as u32,
        header.padded_d as u32,
        header.nlist as u32,
        header.metric_code,
        REQUIRED_FLAGS,
        header.num_bits as u32,
        low_word_of(total),
        high_word_of(total),
        low_word_of(header.rotation_seed),
        high_word_of(header.rotation_seed),
        header.rotation_rounds,
        header.plane_size as u32,
        header.rotation_type,
        header.factor_layout,
    ];
    assert(words@ =~= header_words(*header));
    push_words(out, words.as_slice());
}

/// Reading a word of written words.
pub proof fn lemma_written_word(words: Seq<u32>, i: int)
    requires
        0 <= i < words.len(),
    ensures
        crate::bytes::le32(crate::bytes::bytes_of_words(words), 4 * i) == words[i],
{
    crate::bytes::lemma_word_bytes(words);
    let all = crate::bytes::bytes_of_words(words);
    crate::bytes::lemma_le32_of(all, 4 * i, crate::bytes::bytes32(words[i] as int));
    crate::bytes::law_read_back_32(words[i] as int);
}

/// A header survives being written and read.
pub proof fn law_header_round_trip(header: RQHeader, metrics: Seq<u32>)
    requires
        header_valid(header, metrics),
    ensures
        crate::bytes::bytes_of_words(header_words(header)).len() == IVF_RQ_HEADER_SIZE,
        header_problem(crate::bytes::bytes_of_words(header_words(header)), metrics) is None,
        header_fields(crate::bytes::bytes_of_words(header_words(header))) == header,
{
    let words = header_words(header);
    let all = crate::bytes::bytes_of_words(words);
    crate::bytes::lemma_word_bytes(words);
    assert forall|i: int| 0 <= i < 16 implies crate::bytes::le32(all, 4 * i) == #[trigger] words[i] by {
        lemma_written_word(words, i);
    }
    assert(words[0] == IVF_RQ_MAGIC);
    assert(words[1] == IVF_RQ_VERSION);
    assert(words[2] == header.d);
    assert(words[3] == header.padded_d);
    assert(words[4] == header.nlist);
    assert(words[5] == header.metric_code);
    assert(words[6] == REQUIRED_FLAGS);
    assert(words[7] == header.num_bits);
    assert(words[8] == low_word(crate::bytes::unsigned64(header.total_vectors as int)));
    assert(words[9] == high_word(crate::bytes::unsigned64(header.total_vectors as int)));
    assert(words[10] == low_word(header.rotation_seed as int));
    assert(words[11] == high_word(header.rotation_seed as int));
    assert(words[12] == header.rotation_rounds);
    assert(words[13] == header.plane_size);
    assert(words[14] == header.rotation_type);
    assert(words[15] == header.factor_layout);
}

/// Why sizes, tables or payloads are refused.
#[derive(Debug, Clone, Copy, PartialEq, Eq, Structural)]
pub enum DataError {
    /// `IVF-RQ section size overflow`
    SectionSize,
    /// `IVF-RQ list byte size overflow`
    ListBytes,
    /// `IVF-RQ resident metadata size overflow`
    MetadataSize,
    /// `invalid IVF-RQ list count`
    ListCount { value: i32 },
    /// `invalid IVF-RQ delta ID bytes`
    IdBytes { value: i32 },
    /// `IVF-RQ list counts total does not match header`
    TotalMismatch { actual: i64, expected: i64 },
    /// `list ID out of range`
    ListOutOfRange { list: usize },
    /// `IVF-RQ list payload overflow`
    PayloadSize,
    /// `negative IVF-RQ list offset`
    ListOffset { offset: i64, list: usize },
    /// `IVF-RQ batch payload overflow`
    BatchSize,
    /// `IVF-RQ list payload length mismatch`
    PayloadLength { list: usize },
    /// `IVF-RQ delta ID length mismatch`
    IdLength,
    /// `IVF-RQ code length mismatch`
    CodeLength,
}

/// The size of a section of `left * right` values.
pub fn checked_section_size(left: usize, right: usize) -> (result: Result<usize, DataError>)
    ensures
        match result {
            Ok(size) => size == left * right && size <= MAX_SECTION_VALUES,
            Err(error) => left * right > MAX_SECTION_VALUES && error == DataError::SectionSize,
        },
{
    match left.checked_mul(right) {
        Some(size) => {
            if size <= MAX_SECTION_VALUES {
                Ok(size)
            } else {
                Err(DataError::SectionSize)
            }
        },
        None => Err(DataError::SectionSize),
    }
}

/// The bytes of `count` entries.
pub fn checked_list_bytes(count: usize, bytes_per_entry: usize) -> (result: Result<
    usize,
    DataError,
>)
    ensures
        match result {
            Ok(size) => size == count * bytes_per_entry,
            Err(error) => count * bytes_per_entry > usize::MAX && error == DataError::ListBytes,
        },
{
    match count.checked_mul(bytes_per_entry) {
        Some(size) => Ok(size),
        None => Err(DataError::ListBytes),
    }
}

/// What keeps the resident metadata from being read.
pub open spec fn metadata_problem(nlist: int, d: int) -> Option<DataError> {
    if nlist * d > MAX_SECTION_VALUES {
        Some(DataError::SectionSize)
    } else if nlist * d * 4 > usize::MAX || nlist * 16 > usize::MAX {
        Some(DataError::ListBytes)
    } else if nlist * d * 4 + nlist * 16 > usize::MAX {
        Some(DataError::MetadataSize)
    } else {
        None
    }
}

/// The bytes of the centroids and of the list table together.
pub fn metadata_size(nlist: usize, d: usize) -> (result: Result<usize, DataError>)
    ensures
        match result {
            Ok(size) => metadata_problem(nlist as int, d as int) is None && size == nlist * d * 4
                + nlist * 16,
            Err(error) => metadata_problem(nlist as int, d as int) == Some(error),
        },
{
    let values: usize = match checked_section_size(nlist, d) {
        Ok(size) => size,
        Err(error) => return Err(error),
    };
    let centroid_bytes: usize = match checked_list_bytes(values, 4) {
        Ok(size) => size,
        Err(error) => return Err(error),
    };
    let table_bytes: usize = match checked_list_bytes(nlist, 16) {
        Ok(size) => size,
        Err(error) => return Err(error),
    };
    match centroid_bytes.checked_add(table_bytes) {
        Some(size) => Ok(size),
        None => Err(DataError::MetadataSize),
    }
}

/// One entry of the list table.
#[derive(Debug, Clone, Copy, PartialEq, Eq, Structural)]
pub struct ListEntry {
    pub offset: i64,
    pub count: i32,
    pub id_bytes: i32,
}

/// The entry at place `list` of a list table.
pub open spec fn entry_at(table: Seq<u8>, list: int) -> ListEntry {
    ListEntry {
        offset: crate::bytes::signed64(crate::bytes::le64(table, 16 * list)) as i64,
        count: crate::bytes::signed32(crate::bytes::le32(table, 16 * list + 8)) as i32,
        id_bytes: crate::bytes::signed32(crate::bytes::le32(table, 16 * list + 12)) as i32,
    }
}

/// The rows of the first `n` lists.
pub open spec fn count_total(table: Seq<u8>, n: nat) -> int
    decreases n,
{
    if n == 0 {
        0
    } else {
        count_total(table, (n - 1) as nat) + entry_at(table, n - 1).count
    }
}

/// The first problem among the first `n` entries of a list table.
pub open spec fn table_problem(table: Seq<u8>, n: nat) -> Option<DataError>
    decreases n,
{
    if n == 0 {
        None
    } else {
        match table_problem(table, (n - 1) as nat) {
            Some(error) => Some(error),
            None => {
                let entry = entry_at(table, n - 1);
                if entry.count < 0 {
                    Some(DataError::ListCount { value: entry.count })
                } else if entry.id_bytes < 0 {
                    Some(DataError::IdBytes { value: entry.id_bytes })
                } else {
                    None
                }
            },
        }
    }
}

/// Reads a list table; its counts have to add up to `total_vectors`.
pub fn parse_list_table(table: &[u8], nlist: usize, total_vectors: i64) -> (result: Result<
    Vec<ListEntry>,
    DataError,
>)
    requires
        table@.len() == nlist * 16,
        nlist <= i32::MAX,
    ensures
        match result {
            Ok(entries) => {
                &&& table_problem(table@, nlist as nat) is None
                &&& count_total(table@, nlist as nat) == total_vectors
                &&& entries@.len() == nlist
                &&& forall|l: int|
                    0 <= l < nlist ==> #[trigger] entries@[l] == entry_at(table@, l)
                        && entries@[l].count >= 0 && entries@[l].id_bytes >= 0
            },
            Err(error) => match table_problem(table@, nlist as nat) {
                Some(problem) => error == problem,
                None => count_total(table@, nlist as nat) != total_vectors && error
                    == (DataError::TotalMismatch {
                    actual: count_total(table@, nlist as nat) as i64,
                    expected: total_vectors,
                }),
            },
        },
{
    let mut entries: Vec<ListEntry> = Vec::new();
    let mut total: i64 = 0;
    let size: usize = table.len();
    let mut l: usize = 0;
    while l < nlist
        invariant
            l <= nlist,
            nlist <= i32::MAX,
            size == table@.len(),
            size == nlist * 16,
            entries@.len() == l,
            forall|k: int|
                0 <= k < l ==> #[trigger] entries@[k] == entry_at(table@, k) && entries@[k].count
                    >= 0 && entries@[k].id_bytes >= 0,
            table_problem(table@, l as nat) is None,
            total == count_total(table@, l as nat),
            0 <= total <= l * i32::MAX,
        decreases nlist - l,
    {
        let at: usize = 16 * l;
        let offset: i64 = read_i64(table, at);
        let count: i32 = read_i32(table, at + 8);
        let id_bytes: i32 = read_i32(table, at + 12);
        assert(entry_at(table@, l as int) == (ListEntry { offset, count, id_bytes }));
        if count < 0 || id_bytes < 0 {
            let error = if count < 0 {
                DataError::ListCount { value: count }
            } else {
                DataError::IdBytes { value: id_bytes }
            };
            proof {
                lemma_problem_stays(table@, (l + 1) as nat, nlist as nat);
            }
            return Err(error);
        }
        assert(l * i32::MAX + i32::MAX == (l + 1) * i32::MAX) by (nonlinear_arith);
        assert(l * i32::MAX <= i32::MAX * i32::MAX) by (nonlinear_arith)
            requires
                l <= i32::MAX,
        ;
        total = total + count as i64;
        entries.push(ListEntry { offset, count, id_bytes });
        l = l + 1;
    }
    if total != total_vectors {
        return Err(DataError::TotalMismatch { actual: total, expected: total_vectors });
    }
    Ok(entries)
}

proof fn lemma_problem_stays(table: Seq<u8>, a: nat, b: nat)
    requires
        a <= b,
        table_problem(table, a) is Some,
    ensures
        table_problem(table, b) == table_problem(table, a),
    decreases b,
{
    if a < b {
        lemma_problem_stays(table, a, (b - 1) as nat);
    }
}

/// The words of one table entry.
pub open spec fn entry_words(entry: ListEntry) -> Seq<u32> {
    seq![
        low_word(crate::bytes::unsigned64(entry.offset as int)),
        high_word(crate::bytes::unsigned64(entry.offset as int)),
        crate::bytes::unsigned32(entry.count as int) as u32,
        crate::bytes::unsigned32(entry.id_bytes as int) as u32,
    ]
}

/// The words of a list table.
pub open spec fn table_words(entries: Seq<ListEntry>) -> Seq<u32>
    decreases entries.len(),
{
    if entries.len() == 0 {
        Seq::empty()
    } else {
        table_words(entries.drop_last()) + entry_words(entries.last())
    }
}

proof fn lemma_table_words(entries: Seq<ListEntry>)
    ensures
        table_words(entries).len() == 4 * entries.len(),
        forall|l: int|
            0 <= l < entries.len() ==> #[trigger] table_words(entries).subrange(4 * l, 4 * l + 4)
                == entry_words(entries[l]),
    decreases entries.len(),
{
    if entries.len() > 0 {
        let shorter = entries.drop_last();
        lemma_table_words(shorter);
        let all = table_words(entries);
        assert forall|l: int| 0 <= l < entries.len() implies #[trigger] all.subrange(
            4 * l,
            4 * l + 4,
        ) == entry_words(entries[l]) by {
            if l < shorter.len() {
                assert(all.subrange(4 * l, 4 * l + 4) =~= table_words(shorter).subrange(
                    4 * l,
                    4 * l + 4,
                ));
            } else {
                assert(all.subrange(4 * l, 4 * l + 4) =~= entry_words(entries[l]));
            }
        }
    }
}

/// Writes a list table.
pub fn write_list_table(out: &mut Vec<u8>, entries: &[ListEntry])
    ensures
        final(out)@ == old(out)@ + crate::bytes::bytes_of_words(table_words(entries@)),
{
    let mut words: Vec<u32> = Vec::new();
    assert(entries@.take(0) =~= Seq::<ListEntry>::empty());
    let mut l: usize = 0;
    while l < entries.len()
        invariant
            l <= entries@.len(),
            words@ == table_words(entries@.take(l as int)),
        decreases entries@.len() - l,
    {
        let entry: ListEntry = entries[l];
        let offset: u64 = pattern_of(entry.offset);
        let ghost before = words@;
        words.push(low_word_of(offset));
        words.push(high_word_of(offset));
        words.push(word_of(entry.count));
        words.push(word_of(entry.id_bytes));
        proof {
            assert(entries@.take(l + 1).drop_last() =~= entries@.take(l as int));
            assert(words@ =~= before + entry_words(entry));
        }
        l = l + 1;
    }
    assert(entries@.take(entries@.len() as int) =~= entries@);
    push_words(out, words.as_slice());
}

fn word_of(value: i32) -> (word: u32)
    ensures
        word == crate::bytes::unsigned32(value as int),
{
    if value >= 0 {
        value as u32
    } else {
        (value as i64 + 0x1_0000_0000) as u32
    }
}

/// A list table survives being written and read.
pub proof fn law_list_table_round_trip(entries: Seq<ListEntry>, list: int)
    requires
        0 <= list < entries.len(),
    ensures
        crate::bytes::bytes_of_words(table_words(entries)).len() == 16 * entries.len(),
        entry_at(crate::bytes::bytes_of_words(table_words(entries)), list) == entries[list],
{
    let words = table_words(entries);
    let all = crate::bytes::bytes_of_words(words);
    lemma_table_words(entries);
    crate::bytes::lemma_word_bytes(words);
    let own = entry_words(entries[list]);
    assert(words.subrange(4 * list, 4 * list + 4) == own);
    assert forall|i: int| 0 <= i < 4 implies crate::bytes::le32(all, 16 * list + 4 * i)
        == #[trigger] own[i] by {
        lemma_written_word(words, 4 * list + i);
        assert(words[4 * list + i] == words.subrange(4 * list, 4 * list + 4)[i]);
    }
    assert(own[0] == low_word(crate::bytes::unsigned64(entries[list].offset as int)));
    assert(own[1] == high_word(crate::bytes::unsigned64(entries[list].offset as int)));
    assert(own[2] == crate::bytes::unsigned32(entries[list].count as int));
    assert(own[3] == crate::bytes::unsigned32(entries[list].id_bytes as int));
}

/// The resident part of an index file.
#[derive(Debug)]
pub struct RQTables {
    pub header: RQHeader,
    pub centroids: Vec<u32>,
    pub entries: Vec<ListEntry>,
}

/// Where the payload of a list lies and how it is divided.
#[derive(Debug, Clone, Copy, PartialEq, Eq, Structural)]
pub struct RQListPayloadMeta {
    pub list_id: usize,
    pub count: usize,
    pub offset: u64,
    pub id_bytes_len: usize,
    pub code_bytes_len: usize,
    pub factor_values_len: usize,
    pub payload_len: usize,
}

/// The division of the payload of a list with `entry`.
pub open spec fn payload_meta(header: RQHeader, entry: ListEntry, list: usize) -> RQListPayloadMeta {
    let code_bytes = entry.count * (header.plane_size * header.num_bits);
    let factor_values = entry.count * crate::rq::spec_factor_fields(header.num_bits as int);
    RQListPayloadMeta {
        list_id: list,
        count: entry.count as usize,
        offset: entry.offset as u64,
        id_bytes_len: entry.id_bytes as usize,
        code_bytes_len: code_bytes as usize,
        factor_values_len: factor_values as usize,
        payload_len: (16 + entry.id_bytes + code_bytes + factor_values * 4) as usize,
    }
}

/// What keeps the payload of a list with rows from being read.
pub open spec fn payload_problem(header: RQHeader, entry: ListEntry, list: usize) -> Option<
    DataError,
> {
    let code_bytes = entry.count * (header.plane_size * header.num_bits);
    let factor_values = entry.count * crate::rq::spec_factor_fields(header.num_bits as int);
    if code_bytes > usize::MAX || factor_values > usize::MAX {
        Some(DataError::ListBytes)
    } else if 16 + entry.id_bytes + code_bytes + factor_values * 4 > usize::MAX {
        Some(DataError::PayloadSize)
    } else if entry.offset < 0 {
        Some(DataError::ListOffset { offset: entry.offset, list })
    } else {
        None
    }
}

impl RQTables {
    pub open spec fn well_formed(self) -> bool {
        &&& self.header.nlist == self.entries@.len()
        &&& 1 <= self.header.num_bits <= 8
        &&& self.header.plane_size <= i32::MAX
        &&& forall|l: int|
            0 <= l < self.entries@.len() ==> (#[trigger] self.entries@[l]).count >= 0
                && self.entries@[l].id_bytes >= 0
    }

    /// Reads the centroids and the list table that follow the header.
    pub fn load(header: RQHeader, metadata: &[u8]) -> (result: Result<Self, DataError>)
        requires
            header.nlist <= i32::MAX,
            1 <= header.num_bits <= 8,
            header.plane_size <= i32::MAX,
            metadata_problem(header.nlist as int, header.d as int) is None,
            metadata@.len() == header.nlist * header.d * 4 + header.nlist * 16,
        ensures
            match result {
                Ok(tables) => {
                    let table = metadata@.skip(header.nlist * header.d * 4);
                    &&& tables.well_formed()
                    &&& tables.header == header
                    &&& tables.centroids@ == crate::bytes::words_of(
                        metadata@.take(header.nlist * header.d * 4),
                    )
                    &&& table_problem(table, header.nlist as nat) is None
                    &&& count_total(table, header.nlist as nat) == header.total_vectors
                    &&& forall|l: int|
                        0 <= l < header.nlist ==> #[trigger] tables.entries@[l] == entry_at(
                            table,
                            l,
                        )
                },
                Err(error) => {
                    let table = metadata@.skip(header.nlist * header.d * 4);
                    match table_problem(table, header.nlist as nat) {
                        Some(problem) => error == problem,
                        None => count_total(table, header.nlist as nat) != header.total_vectors
                            && error == (DataError::TotalMismatch {
                            actual: count_total(table, header.nlist as nat) as i64,
                            expected: header.total_vectors,
                        }),
                    }
                },
            },
    {
        let size: usize = metadata.len();
        let nlist: usize = header.nlist;
        proof {
            assert(0 <= header.nlist * header.d) by (nonlinear_arith);
        }
        let values: usize = nlist * header.d;
        let split: usize = values * 4;
        let centroid_bytes = vstd::slice::slice_subrange(metadata, 0, split);
        let table = vstd::slice::slice_subrange(metadata, split, size);
        proof {
            assert(centroid_bytes@ =~= metadata@.take(split as int));
            assert(table@ =~= metadata@.skip(split as int));
        }
        let centroids = match read_words(centroid_bytes) {
            Some(words) => words,
            None => Vec::new(),
        };
        match parse_list_table(table, nlist, header.total_vectors) {
            Ok(entries) => Ok(RQTables { header, centroids, entries }),
            Err(error) => Err(error),
        }
    }

    /// Where the payload of a list lies; nothing for a list without rows.
    pub fn list_payload_meta(&self, list_id: usize) -> (result: Result<
        Option<RQListPayloadMeta>,
        DataError,
    >)
        requires
            self.well_formed(),
        ensures
            match result {
                Ok(None) => list_id < self.header.nlist && self.entries@[list_id as int].count == 0,
                Ok(Some(meta)) => {
                    &&& list_id < self.header.nlist
                    &&& self.entries@[list_id as int].count > 0
                    &&& payload_problem(
                        self.header,
                        self.entries@[list_id as int],
                        list_id,
                    ) is None
                    &&& meta == payload_meta(self.header, self.entries@[list_id as int], list_id)
                },
                Err(error) => if list_id >= self.header.nlist {
                    error == (DataError::ListOutOfRange { list: list_id })
                } else {
                    self.entries@[list_id as int].count > 0 && payload_problem(
                        self.header,
                        self.entries@[list_id as int],
                        list_id,
                    ) == Some(error)
                },
            },
    {
        if list_id >= self.header.nlist {
            return Err(DataError::ListOutOfRange { list: list_id });
        }
        let entry: ListEntry = self.entries[list_id];
        let count: usize = entry.count as usize;
        if count == 0 {
            return Ok(None);
        }
        let id_bytes_len: usize = entry.id_bytes as usize;
        proof {
            assert(0 <= self.header.plane_size * self.header.num_bits <= i32::MAX * 8)
                by (nonlinear_arith)
                requires
                    0 <= self.header.plane_size <= i32::MAX,
                    0 <= self.header.num_bits <= 8,
            ;
        }
        let code_size: usize = match self.header.plane_size.checked_mul(self.header.num_bits) {
            Some(size) => size,
            None => {
                proof {
                    let size = self.header.plane_size * self.header.num_bits;
                    assert(count * size >= size) by (nonlinear_arith)
                        requires
                            count >= 1,
                            size >= 0,
                    ;
                }
                return Err(DataError::ListBytes);
            },
        };
        let fields: usize = if self.header.num_bits == 1 {
            2
        } else {
            5
        };
        let code_bytes_len: usize = match checked_list_bytes(count, code_size) {
            Ok(size) => size,
            Err(error) => return Err(error),
        };
        let factor_values_len: usize = match checked_list_bytes(count, fields) {
            Ok(size) => size,
            Err(error) => return Err(error),
        };
        let payload_len: usize = match payload_size(id_bytes_len, code_bytes_len, factor_values_len) {
            Some(size) => size,
            None => return Err(DataError::PayloadSize),
        };
        if entry.offset < 0 {
            return Err(DataError::ListOffset { offset: entry.offset, list: list_id });
        }
        Ok(
            Some(
                RQListPayloadMeta {
                    list_id,
                    count,
                    offset: entry.offset as u64,
                    id_bytes_len,
                    code_bytes_len,
                    factor_values_len,
                    payload_len,
                },
            ),
        )
    }
}

/// The bytes of a payload: sixteen bytes of lengths, the ids, the codes and
/// four bytes per factor.
fn payload_size(id_bytes: usize, code_bytes: usize, factor_values: usize) -> (size: Option<usize>)
    ensures
        match size {
            Some(total) => total == 16 + id_bytes + code_bytes + factor_values * 4,
            None => 16 + id_bytes + code_bytes + factor_values * 4 > usize::MAX,
        },
{
    match factor_values.checked_mul(4) {
        Some(factor_bytes) => match id_bytes.checked_add(16) {
            Some(head) => match head.checked_add(code_bytes) {
                Some(body) => body.checked_add(factor_bytes),
                None => None,
            },
            None => None,
        },
        None => None,
    }
}

/// Requests for the first `n` lists: one for each list with rows.
pub open spec fn requests(tables: RQTables, lists: Seq<usize>, n: nat) -> nat
    decreases n,
{
    if n == 0 {
        0
    } else {
        requests(tables, lists, (n - 1) as nat) + (if tables.entries@[lists[n - 1] as int].count
            > 0 {
            1nat
        } else {
            0
        })
    }
}

/// Payload bytes of the first `n` lists.
pub open spec fn payload_bytes(tables: RQTables, lists: Seq<usize>, n: nat) -> int
    decreases n,
{
    if n == 0 {
        0
    } else {
        let entry = tables.entries@[lists[n - 1] as int];
        payload_bytes(tables, lists, (n - 1) as nat) + (if entry.count > 0 {
            payload_meta(tables.header, entry, lists[n - 1]).payload_len as int
        } else {
            0
        })
    }
}

/// What keeps list `i` of a batch from being looked at.
pub open spec fn lookup_problem(tables: RQTables, list: usize) -> Option<DataError> {
    if list >= tables.header.nlist {
        Some(DataError::ListOutOfRange { list })
    } else if tables.entries@[list as int].count > 0 {
        payload_problem(tables.header, tables.entries@[list as int], list)
    } else {
        None
    }
}

/// A read that already covers the lists before place `i` has no room for the
/// list at `i`.
pub open spec fn read_is_full(
    tables: RQTables,
    lists: Seq<usize>,
    max_ranges: int,
    i: int,
) -> bool {
    let entry = tables.entries@[lists[i] as int];
    &&& entry.count > 0
    &&& {
        ||| requests(tables, lists, i as nat) >= max_ranges
        ||| i > 0 && payload_bytes(tables, lists, i as nat) + payload_meta(
            tables.header,
            entry,
            lists[i],
        ).payload_len > MAX_RQ_BATCH_READ_BYTES
    }
}

/// The number of ranges of one read; zero stands for no limit.
pub open spec fn range_limit(max_ranges_per_pread: usize) -> int {
    if max_ranges_per_pread == 0 {
        usize::MAX as int
    } else {
        max_ranges_per_pread as int
    }
}

/// The lists before place `n` can be read and fit one read.
pub open spec fn read_covers(tables: RQTables, lists: Seq<usize>, max_ranges: int, n: int) -> bool {
    forall|i: int|
        0 <= i < n ==> lookup_problem(tables, #[trigger] lists[i]) is None && !read_is_full(
            tables,
            lists,
            max_ranges,
            i,
        )
}

/// Looking at the list at place `i` fails, after those before it fit the read.
pub open spec fn read_fails(
    tables: RQTables,
    lists: Seq<usize>,
    max_ranges: int,
    i: int,
    error: DataError,
) -> bool {
    &&& read_covers(tables, lists, max_ranges, i)
    &&& match lookup_problem(tables, lists[i]) {
        Some(problem) => error == problem,
        None => {
            let entry = tables.entries@[lists[i] as int];
            &&& entry.count > 0
            &&& requests(tables, lists, i as nat) < max_ranges
            &&& payload_bytes(tables, lists, i as nat) + payload_meta(
                tables.header,
                entry,
                lists[i],
            ).payload_len > usize::MAX
            &&& error == DataError::BatchSize
        },
    }
}

impl RQTables {
    /// How many of the lists one read covers: as many as stay within the
    /// number of ranges (zero for no limit) and the number of bytes, and at
    /// least one.
    pub fn batch_read_end(&self, list_ids: &[usize], max_ranges_per_pread: usize) -> (result: Result<
        usize,
        DataError,
    >)
        requires
            self.well_formed(),
        ensures
            match result {
                Ok(end) => {
                    let limit = range_limit(max_ranges_per_pread);
                    &&& end <= list_ids@.len()
                    &&& list_ids@.len() > 0 ==> end > 0
                    &&& read_covers(*self, list_ids@, limit, end as int)
                    &&& end < list_ids@.len() ==> lookup_problem(
                        *self,
                        list_ids@[end as int],
                    ) is None && read_is_full(*self, list_ids@, limit, end as int)
                },
                Err(error) => exists|i: int|
                    0 <= i < list_ids@.len() && #[trigger] read_fails(
                        *self,
                        list_ids@,
                        range_limit(max_ranges_per_pread),
                        i,
                        error,
                    ),
            },
    {
        let limit: usize = if max_ranges_per_pread == 0 {
            usize::MAX
        } else {
            max_ranges_per_pread
        };
        let total: usize = list_ids.len();
        let mut bytes: usize = 0;
        let mut count: usize = 0;
        let mut i: usize = 0;
        while i < total
            invariant
                i <= total,
                total == list_ids@.len(),
                self.well_formed(),
                limit == range_limit(max_ranges_per_pread),
                bytes == payload_bytes(*self, list_ids@, i as nat),
                count == requests(*self, list_ids@, i as nat),
                count <= i,
                read_covers(*self, list_ids@, limit as int, i as int),
            decreases total - i,
        {
            let list: usize = list_ids[i];
            match self.list_payload_meta(list) {
                Err(error) => {
                    assert(read_fails(*self, list_ids@, limit as int, i as int, error));
                    return Err(error);
                },
                Ok(None) => {},
                Ok(Some(meta)) => {
                    if count >= limit {
                        return Ok(i);
                    }
                    let next: usize = match bytes.checked_add(meta.payload_len) {
                        Some(next) => next,
                        None => {
                            assert(read_fails(
                                *self,
                                list_ids@,
                                limit as int,
                                i as int,
                                DataError::BatchSize,
                            ));
                            return Err(DataError::BatchSize);
                        },
                    };
                    if i > 0 && next > MAX_RQ_BATCH_READ_BYTES {
                        return Ok(i);
                    }
                    bytes = next;
                    count = count + 1;
                },
            }
            i = i + 1;
        }
        Ok(total)
    }
}

/// The parts of a list payload.
#[derive(Debug)]
pub struct RQListParts {
    pub base_id: i64,
    pub id_bytes: Vec<u8>,
    pub blocked_codes: Vec<u8>,
    pub blocked_factors: Vec<u32>,
}

/// What is wrong with a payload that should be divided as `meta` says.
pub open spec fn split_problem(meta: RQListPayloadMeta, payload: Seq<u8>) -> Option<DataError> {
    if payload.len() != meta.payload_len {
        Some(DataError::PayloadLength { list: meta.list_id })
    } else if crate::bytes::signed32(crate::bytes::le32(payload, 8)) != meta.id_bytes_len {
        Some(DataError::IdLength)
    } else if crate::bytes::signed32(crate::bytes::le32(payload, 12)) != meta.code_bytes_len {
        Some(DataError::CodeLength)
    } else {
        None
    }
}

/// The parts of a payload.
pub open spec fn is_split(meta: RQListPayloadMeta, payload: Seq<u8>, parts: RQListParts) -> bool {
    let codes = 16 + meta.id_bytes_len;
    let factors = codes + meta.code_bytes_len;
    &&& parts.base_id == crate::bytes::signed64(crate::bytes::le64(payload, 0))
    &&& parts.id_bytes@ == payload.subrange(16, codes)
    &&& parts.blocked_codes@ == payload.subrange(codes, factors)
    &&& parts.blocked_factors@ == crate::bytes::words_of(payload.skip(factors))
    &&& parts.blocked_factors@.len() == meta.factor_values_len
}

fn copy_bytes(bytes: &[u8], start: usize, end: usize) -> (copy: Vec<u8>)
    requires
        start <= end <= bytes@.len(),
    ensures
        copy@ == bytes@.subrange(start as int, end as int),
{
    let mut copy: Vec<u8> = Vec::new();
    let mut i: usize = start;
    while i < end
        invariant
            start <= i <= end,
            end <= bytes@.len(),
            copy@ == bytes@.subrange(start as int, i as int),
        decreases end - i,
    {
        copy.push(bytes[i]);
        assert(copy@ =~= bytes@.subrange(start as int, i + 1));
        i = i + 1;
    }
    copy
}

/// Divides the payload of a list.
pub fn split_list_payload(meta: &RQListPayloadMeta, payload: &[u8]) -> (result: Result<
    RQListParts,
    DataError,
>)
    requires
        meta.payload_len == 16 + meta.id_bytes_len + meta.code_bytes_len + meta.factor_values_len
            * 4,
    ensures
        match result {
            Ok(parts) => split_problem(*meta, payload@) is None && is_split(
                *meta,
                payload@,
                parts,
            ),
            Err(error) => split_problem(*meta, payload@) == Some(error),
        },
{
    if payload.len() != meta.payload_len {
        return Err(DataError::PayloadLength { list: meta.list_id });
    }
    let size: usize = payload.len();
    let base_id: i64 = read_i64(payload, 0);
    let id_bytes_len: i32 = read_i32(payload, 8);
    let code_bytes_len: i32 = read_i32(payload, 12);
    if id_bytes_len < 0 || id_bytes_len as usize != meta.id_bytes_len {
        return Err(DataError::IdLength);
    }
    if code_bytes_len < 0 || code_bytes_len as usize != meta.code_bytes_len {
        return Err(DataError::CodeLength);
    }
    let codes: usize = 16 + meta.id_bytes_len;
    let factors: usize = codes + meta.code_bytes_len;
    let id_bytes = copy_bytes(payload, 16, codes);
    let blocked_codes = copy_bytes(payload, codes, factors);
    let rest = vstd::slice::slice_subrange(payload, factors, size);
    proof {
        assert(rest@ =~= payload@.skip(factors as int));
    }
    let blocked_factors = match read_words(rest) {
        Some(words) => words,
        None => Vec::new(),
    };
    Ok(RQListParts { base_id, id_bytes, blocked_codes, blocked_factors })
}

/// The bytes of a list payload.
pub open spec fn payload_of(
    base_id: i64,
    id_bytes: Seq<u8>,
    codes: Seq<u8>,
    factors: Seq<u32>,
) -> Seq<u8> {
    crate::bytes::bytes64(crate::bytes::unsigned64(base_id as int)) + crate::bytes::bytes32(
        id_bytes.len() as int,
    ) + crate::bytes::bytes32(codes.len() as int) + id_bytes + codes
        + crate::bytes::bytes_of_words(factors)
}

/// A list payload survives being written and divided.
pub proof fn law_list_payload_round_trip(
    meta: RQListPayloadMeta,
    base_id: i64,
    id_bytes: Seq<u8>,
    codes: Seq<u8>,
    factors: Seq<u32>,
    parts: RQListParts,
)
    requires
        meta.id_bytes_len == id_bytes.len(),
        meta.code_bytes_len == codes.len(),
        meta.factor_values_len == factors.len(),
        meta.payload_len == 16 + id_bytes.len() + codes.len() + factors.len() * 4,
        id_bytes.len() <= i32::MAX,
        codes.len() <= i32::MAX,
        is_split(meta, payload_of(base_id, id_bytes, codes, factors), parts),
    ensures
        split_problem(meta, payload_of(base_id, id_bytes, codes, factors)) is None,
        parts.base_id == base_id,
        parts.id_bytes@ == id_bytes,
        parts.blocked_codes@ == codes,
        parts.blocked_factors@ == factors,
{
    let payload = payload_of(base_id, id_bytes, codes, factors);
    let base = crate::bytes::bytes64(crate::bytes::unsigned64(base_id as int));
    let ids_len = crate::bytes::bytes32(id_bytes.len() as int);
    let codes_len = crate::bytes::bytes32(codes.len() as int);
    crate::bytes::law_read_back_64(crate::bytes::unsigned64(base_id as int));
    crate::bytes::law_read_back_32(id_bytes.len() as int);
    crate::bytes::law_read_back_32(codes.len() as int);
    crate::bytes::lemma_word_bytes(factors);
    assert(payload.subrange(0, 8) =~= base);
    assert(payload.subrange(8, 12) =~= ids_len);
    assert(payload.subrange(12, 16) =~= codes_len);
    crate::bytes::lemma_le64_of(payload, 0, base);
    crate::bytes::lemma_le32_of(payload, 8, ids_len);
    crate::bytes::lemma_le32_of(payload, 12, codes_len);
    let start = 16 + id_bytes.len() as int;
    let end = start + codes.len() as int;
    assert(payload.subrange(16, start) =~= id_bytes);
    assert(payload.subrange(start, end) =~= codes);
    assert(payload.skip(end) =~= crate::bytes::bytes_of_words(factors));
    crate::bytes::law_words_round_trip(factors);
}

} // verus!
