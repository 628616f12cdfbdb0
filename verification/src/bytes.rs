//! Little-endian integers in byte strings.
use vstd::prelude::*;

verus! {

/// The unsigned number in the four bytes at `at`.
pub open spec fn le32(bytes: Seq<u8>, at: int) -> int {
    bytes[at] + 0x100 * bytes[at + 1] + 0x1_0000 * bytes[at + 2] + 0x100_0000 * bytes[at + 3]
}

/// The unsigned number in the eight bytes at `at`.
pub open spec fn le64(bytes: Seq<u8>, at: int) -> int {
    le32(bytes, at) + 0x1_0000_0000 * le32(bytes, at + 4)
}

/// The signed number that a pattern of 32 bits stands for.
pub open spec fn signed32(value: int) -> int {
    if value < 0x8000_0000 {
        value
    } else {
        value - 0x1_0000_0000
    }
}

/// The signed number that a pattern of 64 bits stands for.
pub open spec fn signed64(value: int) -> int {
    if value < 0x8000_0000_0000_0000 {
        value
    } else {
        value - 0x1_0000_0000_0000_0000
    }
}

/// The pattern of 32 bits that stands for a signed number.
pub open spec fn unsigned32(value: int) -> int {
    if value >= 0 {
        value
    } else {
        value + 0x1_0000_0000
    }
}

/// The pattern of 64 bits that stands for a signed number.
pub open spec fn unsigned64(value: int) -> int {
    if value >= 0 {
        value
    } else {
        value + 0x1_0000_0000_0000_0000
    }
}

/// The four bytes of a number.
pub open spec fn bytes32(value: int) -> Seq<u8> {
    seq![
        (value % 0x100) as u8,
        (value / 0x100 % 0x100) as u8,
        (value / 0x1_0000 % 0x100) as u8,
        (value / 0x100_0000) as u8,
    ]
}

/// The eight bytes of a number.
pub open spec fn bytes64(value: int) -> Seq<u8> {
    bytes32(value % 0x1_0000_0000) + bytes32(value / 0x1_0000_0000)
}

/// Reading the four bytes of a number gives it back.
pub proof fn law_read_back_32(value: int)
    requires
        0 <= value < 0x1_0000_0000,
    ensures
        le32(bytes32(value), 0) == value,
        bytes32(value).len() == 4,
{
    let q1 = value / 0x100;
    let q2 = value / 0x1_0000;
    let q3 = value / 0x100_0000;
    assert(q2 == q1 / 0x100);
    assert(q3 == q2 / 0x100);
    assert(value == 0x100 * q1 + value % 0x100);
    assert(q1 == 0x100 * q2 + q1 % 0x100);
    assert(q2 == 0x100 * q3 + q2 % 0x100);
    assert(0 <= q3 < 0x100);
}

/// Reading the eight bytes of a number gives it back.
pub proof fn law_read_back_64(value: int)
    requires
        0 <= value < 0x1_0000_0000_0000_0000,
    ensures
        le64(bytes64(value), 0) == value,
        bytes64(value).len() == 8,
{
    let low = value % 0x1_0000_0000;
    let high = value / 0x1_0000_0000;
    law_read_back_32(low);
    law_read_back_32(high);
    let all = bytes64(value);
    assert(le32(all, 0) == le32(bytes32(low), 0));
    assert(le32(all, 4) == le32(bytes32(high), 0));
}

/// Reading depends on the four bytes alone.
pub proof fn lemma_le32_of(bytes: Seq<u8>, at: int, part: Seq<u8>)
    requires
        part.len() == 4,
        0 <= at,
        at + 4 <= bytes.len(),
        bytes.subrange(at, at + 4) == part,
    ensures
        le32(bytes, at) == le32(part, 0),
{
    assert(bytes[at] == part[0]);
    assert(bytes[at + 1] == part[1]);
    assert(bytes[at + 2] == part[2]);
    assert(bytes[at + 3] == part[3]);
}

/// Reading depends on the eight bytes alone.
pub proof fn lemma_le64_of(bytes: Seq<u8>, at: int, part: Seq<u8>)
    requires
        part.len() == 8,
        0 <= at,
        at + 8 <= bytes.len(),
        bytes.subrange(at, at + 8) == part,
    ensures
        le64(bytes, at) == le64(part, 0),
{
    let whole = bytes.subrange(at, at + 8);
    assert(bytes.subrange(at, at + 4) =~= whole.subrange(0, 4));
    assert(bytes.subrange(at + 4, at + 8) =~= whole.subrange(4, 8));
    lemma_le32_of(bytes, at, part.subrange(0, 4));
    lemma_le32_of(part, 0, part.subrange(0, 4));
    lemma_le32_of(bytes, at + 4, part.subrange(4, 8));
    lemma_le32_of(part, 4, part.subrange(4, 8));
}

pub fn read_u32(bytes: &[u8], at: usize) -> (value: u32)
    requires
        at + 4 <= bytes@.len(),
    ensures
        value == le32(bytes@, at as int),
{
    let n: usize = bytes.len();
    let a: u32 = bytes[at] as u32;
    let b: u32 = bytes[at + 1] as u32;
    let c: u32 = bytes[at + 2] as u32;
    let d: u32 = bytes[at + 3] as u32;
    a + 0x100 * b + 0x1_0000 * c + 0x100_0000 * d
}

pub fn read_u64(bytes: &[u8], at: usize) -> (value: u64)
    requires
        at + 8 <= bytes@.len(),
    ensures
        value == le64(bytes@, at as int),
{
    let n: usize = bytes.len();
    let low: u64 = read_u32(bytes, at) as u64;
    let high: u64 = read_u32(bytes, at + 4) as u64;
    low + 0x1_0000_0000 * high
}

pub fn read_i32(bytes: &[u8], at: usize) -> (value: i32)
    requires
        at + 4 <= bytes@.len(),
    ensures
        value == signed32(le32(bytes@, at as int)),
{
    let pattern: u32 = read_u32(bytes, at);
    if pattern < 0x8000_0000 {
        pattern as i32
    } else {
        (pattern as i64 - 0x1_0000_0000) as i32
    }
}

pub fn read_i64(bytes: &[u8], at: usize) -> (value: i64)
    requires
        at + 8 <= bytes@.len(),
    ensures
        value == signed64(le64(bytes@, at as int)),
{
    let pattern: u64 = read_u64(bytes, at);
    if pattern < 0x8000_0000_0000_0000 {
        pattern as i64
    } else {
        (pattern as i128 - 0x1_0000_0000_0000_0000) as i64
    }
}

pub fn push_u32(out: &mut Vec<u8>, value: u32)
    ensures
        final(out)@ == old(out)@ + bytes32(value as int),
{
    out.push((value % 0x100) as u8);
    out.push((value / 0x100 % 0x100) as u8);
    out.push((value / 0x1_0000 % 0x100) as u8);
    out.push((value / 0x100_0000) as u8);
    assert(out@ =~= old(out)@ + bytes32(value as int));
}

pub fn push_u64(out: &mut Vec<u8>, value: u64)
    ensures
        final(out)@ == old(out)@ + bytes64(value as int),
{
    push_u32(out, (value % 0x1_0000_0000) as u32);
    push_u32(out, (value / 0x1_0000_0000) as u32);
    assert(out@ =~= old(out)@ + bytes64(value as int));
}

pub fn push_i32(out: &mut Vec<u8>, value: i32)
    ensures
        final(out)@ == old(out)@ + bytes32(unsigned32(value as int)),
{
    let pattern: u32 = if value >= 0 {
        value as u32
    } else {
        (value as i64 + 0x1_0000_0000) as u32
    };
    push_u32(out, pattern);
}

pub fn push_i64(out: &mut Vec<u8>, value: i64)
    ensures
        final(out)@ == old(out)@ + bytes64(unsigned64(value as int)),
{
    let pattern: u64 = if value >= 0 {
        value as u64
    } else {
        (value as i128 + 0x1_0000_0000_0000_0000) as u64
    };
    push_u64(out, pattern);
}

/// The words of a byte string, four bytes each.
pub open spec fn words_of(bytes: Seq<u8>) -> Seq<u32> {
    Seq::new(bytes.len() / 4, |i: int| le32(bytes, 4 * i) as u32)
}

/// The bytes of a sequence of words.
pub open spec fn bytes_of_words(words: Seq<u32>) -> Seq<u8>
    decreases words.len(),
{
    if words.len() == 0 {
        Seq::empty()
    } else {
        bytes_of_words(words.drop_last()) + bytes32(words.last() as int)
    }
}

pub proof fn lemma_word_bytes(words: Seq<u32>)
    ensures
        bytes_of_words(words).len() == 4 * words.len(),
        forall|i: int|
            0 <= i < words.len() ==> #[trigger] bytes_of_words(words).subrange(4 * i, 4 * i + 4)
                == bytes32(words[i] as int),
    decreases words.len(),
{
    if words.len() > 0 {
        let shorter = words.drop_last();
        lemma_word_bytes(shorter);
        let all = bytes_of_words(words);
        assert forall|i: int| 0 <= i < words.len() implies #[trigger] all.subrange(4 * i, 4 * i + 4)
            == bytes32(words[i] as int) by {
            if i < shorter.len() {
                assert(all.subrange(4 * i, 4 * i + 4) =~= bytes_of_words(shorter).subrange(
                    4 * i,
                    4 * i + 4,
                ));
            } else {
                assert(all.subrange(4 * i, 4 * i + 4) =~= bytes32(words[i] as int));
            }
        }
    }
}

/// Words survive being written and read.
pub proof fn law_words_round_trip(words: Seq<u32>)
    ensures
        words_of(bytes_of_words(words)) == words,
{
    lemma_word_bytes(words);
    let all = bytes_of_words(words);
    assert forall|i: int| 0 <= i < words.len() implies words_of(all)[i] == words[i] by {
        lemma_le32_of(all, 4 * i, bytes32(words[i] as int));
        law_read_back_32(words[i] as int);
    }
    assert(words_of(all) =~= words);
}

/// Appends the words.
pub fn push_words(out: &mut Vec<u8>, words: &[u32])
    ensures
        final(out)@ == old(out)@ + bytes_of_words(words@),
{
    assert(out@ + bytes_of_words(words@.take(0)) =~= out@);
    let mut i: usize = 0;
    while i < words.len()
        invariant
            i <= words@.len(),
            out@ == old(out)@ + bytes_of_words(words@.take(i as int)),
        decreases words@.len() - i,
    {
        push_u32(out, words[i]);
        assert(words@.take(i + 1).drop_last() =~= words@.take(i as int));
        assert(out@ =~= old(out)@ + bytes_of_words(words@.take(i + 1)));
        i = i + 1;
    }
    assert(words@.take(words@.len() as int) =~= words@);
}

/// Reads words; nothing if the length is no multiple of four.
pub fn read_words(bytes: &[u8]) -> (words: Option<Vec<u32>>)
    ensures
        words is Some == (bytes@.len() % 4 == 0),
        words matches Some(read) ==> read@ == words_of(bytes@),
{
    if bytes.len() % 4 != 0 {
        return None;
    }
    let total: usize = bytes.len();
    let count: usize = total / 4;
    let mut words: Vec<u32> = Vec::new();
    let mut i: usize = 0;
    while i < count
        invariant
            i <= count,
            4 * count == total,
            total == bytes@.len(),
            words@.len() == i,
            forall|j: int| 0 <= j < i ==> #[trigger] words@[j] == le32(bytes@, 4 * j),
        decreases count - i,
    {
        words.push(read_u32(bytes, 4 * i));
        i = i + 1;
    }
    assert(words@ =~= words_of(bytes@));
    Some(words)
}

} // verus!
