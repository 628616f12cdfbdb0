//! The rows of a list that pass a filter.
use crate::arith::{quotient_up, saturating_product};
use crate::filter::RowIdFilter;
use vstd::prelude::*;

verus! {

/// Bit `index` of a word, counted from the least significant one.
pub open spec fn word_bit(word: u64, index: int) -> bool {
    (word >> (index as u64)) & 1u64 == 1u64
}

fn test_word_bit(word: u64, index: usize) -> (set: bool)
    requires
        index < 64,
    ensures
        set == word_bit(word, index as int),
{
    (word >> (index as u64)) & 1u64 == 1u64
}

fn with_word_bit(word: u64, index: usize) -> (result: u64)
    requires
        index < 64,
    ensures
        forall|i: int|
            0 <= i < 64 ==> #[trigger] word_bit(result, i) == (i == index || word_bit(word, i)),
{
    let k: u64 = index as u64;
    let result: u64 = word | (1u64 << k);
    assert forall|i: int| 0 <= i < 64 implies #[trigger] word_bit(result, i) == (i == index
        || word_bit(word, i)) by {
        let j = i as u64;
        assert(k < 64 && j < 64 ==> ((((word | (1u64 << k)) >> j) & 1u64 == 1u64) == (j == k || ((
        word >> j) & 1u64 == 1u64)))) by (bit_vector);
    }
    result
}

proof fn lemma_zero_word(index: int)
    requires
        0 <= index < 64,
    ensures
        !word_bit(0, index),
{
    let j = index as u64;
    assert((0u64 >> j) & 1u64 == 0u64) by (bit_vector);
}

/// Positions of a list, kept as a list while few match and as a bitmap once
/// the list would take more room.
#[derive(Debug, Clone)]
pub enum MatchingRows {
    Sparse(Vec<usize>),
    Bitmap { words: Vec<u64>, len: usize },
}

/// Position `p` is marked in the bitmap.
pub open spec fn marked(words: Seq<u64>, p: int) -> bool {
    0 <= p / 64 < words.len() && word_bit(words[p / 64], p % 64)
}

/// The positions below `n` that satisfy `pick`, in ascending order.
pub open spec fn picked(pick: spec_fn(int) -> bool, n: nat) -> Seq<usize>
    decreases n,
{
    if n == 0 {
        Seq::empty()
    } else {
        let before = picked(pick, (n - 1) as nat);
        if pick(n - 1) {
            before.push((n - 1) as usize)
        } else {
            before
        }
    }
}

/// The picked positions ascend, lie below `n`, and are exactly those picked.
pub proof fn lemma_picked(pick: spec_fn(int) -> bool, n: nat)
    requires
        n <= usize::MAX,
    ensures
        picked(pick, n).len() <= n,
        forall|i: int| 0 <= i < picked(pick, n).len() ==> #[trigger] picked(pick, n)[i] < n,
        forall|i: int| 0 <= i < picked(pick, n).len() ==> pick(#[trigger] picked(pick, n)[i] as int),
        forall|i: int, j: int|
            0 <= i < j < picked(pick, n).len() ==> #[trigger] picked(pick, n)[i] < #[trigger] picked(
                pick,
                n,
            )[j],
        forall|p: int|
            0 <= p < n ==> (#[trigger] pick(p) <==> picked(pick, n).contains(p as usize)),
    decreases n,
{
    if n > 0 {
        let m = (n - 1) as nat;
        lemma_picked(pick, m);
        let before = picked(pick, m);
        let now = picked(pick, n);
        assert forall|p: int| 0 <= p < n implies (#[trigger] pick(p) <==> now.contains(p as usize)) by {
            if p == m {
                if pick(p) {
                    assert(now[before.len() as int] == p as usize);
                } else if now.contains(p as usize) {
                    let i = choose|i: int| 0 <= i < now.len() && now[i] == p as usize;
                    assert(before[i] < m);
                }
            } else {
                if pick(p) {
                    let i = choose|i: int| 0 <= i < before.len() && before[i] == p as usize;
                    assert(now[i] == p as usize);
                } else if now.contains(p as usize) {
                    let i = choose|i: int| 0 <= i < now.len() && now[i] == p as usize;
                    assert(before[i] == p as usize);
                    assert(before.contains(p as usize));
                }
            }
        }
    }
}

/// Picking by equivalent conditions gives the same positions.
pub proof fn lemma_picked_agree(a: spec_fn(int) -> bool, b: spec_fn(int) -> bool, n: nat)
    requires
        forall|p: int| 0 <= p < n ==> #[trigger] a(p) == b(p),
    ensures
        picked(a, n) == picked(b, n),
    decreases n,
{
    if n > 0 {
        lemma_picked_agree(a, b, (n - 1) as nat);
        assert(a(n - 1) == b(n - 1));
    }
}

impl MatchingRows {
    /// The position is one of the matching rows.
    pub open spec fn holds(self, position: int) -> bool {
        match self {
            MatchingRows::Sparse(positions) => positions@.contains(position as usize),
            MatchingRows::Bitmap { words, len } => marked(words@, position),
        }
    }

    /// The matching rows of a list of `count` rows, ascending.
    pub open spec fn listed(self, count: nat) -> Seq<usize> {
        picked(|p: int| self.holds(p), count)
    }

    pub open spec fn spec_len(self) -> nat {
        match self {
            MatchingRows::Sparse(positions) => positions@.len(),
            MatchingRows::Bitmap { words, len } => len as nat,
        }
    }

    /// The value describes rows of a list of `count` rows.
    pub open spec fn well_formed(self, count: nat) -> bool {
        &&& count <= usize::MAX
        &&& self.spec_len() == self.listed(count).len()
        &&& match self {
            MatchingRows::Sparse(positions) => positions@ == self.listed(count),
            MatchingRows::Bitmap { words, len } => words@.len() == crate::arith::ceil_div(
                count as int,
                64,
            ) && forall|p: int| p >= count ==> !(#[trigger] marked(words@, p)),
        }
    }

    pub fn len(&self) -> (n: usize)
        ensures
            n == self.spec_len(),
    {
        match self {
            MatchingRows::Sparse(positions) => positions.len(),
            MatchingRows::Bitmap { words, len } => *len,
        }
    }

    pub fn is_empty(&self) -> (empty: bool)
        ensures
            empty == (self.spec_len() == 0),
    {
        self.len() == 0
    }

    /// Whether the row at `position` matches.
    pub fn contains(&self, position: usize) -> (found: bool)
        requires
            exists|count: nat| #[trigger] self.well_formed(count),
        ensures
            found == self.holds(position as int),
    {
        match self {
            MatchingRows::Sparse(positions) => {
                proof {
                    let count = choose|count: nat| #[trigger] self.well_formed(count);
                    lemma_picked(|p: int| self.holds(p), count);
                }
                let mut low: usize = 0;
                let mut high: usize = positions.len();
                while low < high
                    invariant
                        low <= high <= positions@.len(),
                        forall|i: int, j: int|
                            0 <= i < j < positions@.len() ==> #[trigger] positions@[i]
                                < #[trigger] positions@[j],
                        forall|i: int| 0 <= i < low ==> #[trigger] positions@[i] < position,
                        forall|i: int|
                            high <= i < positions@.len() ==> #[trigger] positions@[i] > position,
                        *self == MatchingRows::Sparse(*positions),
                    decreases high - low,
                {
                    let middle: usize = low + (high - low) / 2;
                    let at: usize = positions[middle];
                    if at == position {
                        assert(positions@[middle as int] == position);
                        return true;
                    } else if at < position {
                        low = middle + 1;
                    } else {
                        high = middle;
                    }
                }
                assert(!positions@.contains(position));
                false
            },
            MatchingRows::Bitmap { words, len } => {
                if position / 64 < words.len() {
                    test_word_bit(words[position / 64], position % 64)
                } else {
                    false
                }
            },
        }
    }

    /// The matching rows in ascending order.
    pub fn positions(&self, count: usize) -> (positions: Vec<usize>)
        requires
            self.well_formed(count as nat),
        ensures
            positions@ == self.listed(count as nat),
    {
        let ghost pick = |p: int| self.holds(p);
        let mut found: Vec<usize> = Vec::new();
        match self {
            MatchingRows::Sparse(positions) => {
                let mut i: usize = 0;
                while i < positions.len()
                    invariant
                        i <= positions@.len(),
                        found@ == positions@.take(i as int),
                    decreases positions@.len() - i,
                {
                    found.push(positions[i]);
                    assert(positions@.take(i + 1) =~= positions@.take(i as int).push(
                        positions@[i as int],
                    ));
                    i = i + 1;
                }
                assert(positions@.take(positions@.len() as int) =~= positions@);
            },
            MatchingRows::Bitmap { words, len } => {
                let mut p: usize = 0;
                while p < count
                    invariant
                        p <= count,
                        *self == (MatchingRows::Bitmap { words: *words, len: *len }),
                        pick == (|p: int| self.holds(p)),
                        words@.len() == crate::arith::ceil_div(count as int, 64),
                        found@ == picked(pick, p as nat),
                    decreases count - p,
                {
                    if test_word_bit(words[p / 64], p % 64) {
                        found.push(p);
                    }
                    p = p + 1;
                }
            },
        }
        found
    }
}

/// How many positions are listed before a bitmap takes no more room.
pub open spec fn sparse_limit(count: int) -> int {
    crate::arith::sat_mul(crate::arith::ceil_div(count, 64), 8) / (usize::BITS as int / 8)
}

/// A bitmap of `words` words that marks the listed positions.
fn mark_all(positions: &Vec<usize>, words: usize) -> (bitmap: Vec<u64>)
    requires
        forall|i: int| 0 <= i < positions@.len() ==> #[trigger] positions@[i] / 64 < words,
    ensures
        bitmap@.len() == words,
        forall|p: int| 0 <= p <= usize::MAX ==> (#[trigger] marked(bitmap@, p) <==> positions@.contains(
            p as usize,
        )),
        forall|p: int| p > usize::MAX ==> !(#[trigger] marked(bitmap@, p)),
{
    let mut bitmap: Vec<u64> = vec![0u64; words];
    assert forall|p: int| p >= 0 implies !(#[trigger] marked(bitmap@, p)) by {
        lemma_zero_word(p % 64);
    }
    let mut i: usize = 0;
    while i < positions.len()
        invariant
            i <= positions@.len(),
            bitmap@.len() == words,
            forall|k: int| 0 <= k < positions@.len() ==> #[trigger] positions@[k] / 64 < words,
            forall|p: int|
                p >= 0 ==> (#[trigger] marked(bitmap@, p) <==> p <= usize::MAX && positions@.take(
                    i as int,
                ).contains(p as usize)),
        decreases positions@.len() - i,
    {
        let at: usize = positions[i];
        let ghost before = bitmap@;
        let word: u64 = bitmap[at / 64];
        bitmap.set(at / 64, with_word_bit(word, at % 64));
        proof {
            let now = positions@.take(i + 1);
            let was = positions@.take(i as int);
            assert(now =~= was.push(at));
            assert forall|p: int| p >= 0 implies (#[trigger] marked(bitmap@, p) <==> p
                <= usize::MAX && now.contains(p as usize)) by {
                assert(marked(before, p) <==> p <= usize::MAX && was.contains(p as usize));
                if p == at {
                    assert(now[i as int] == at);
                } else {
                    assert(p / 64 != at / 64 || p % 64 != at % 64);
                    if p <= usize::MAX {
                        if was.contains(p as usize) {
                            let k = choose|k: int| 0 <= k < was.len() && was[k] == p as usize;
                            assert(now[k] == p as usize);
                        }
                        if now.contains(p as usize) {
                            let k = choose|k: int| 0 <= k < now.len() && now[k] == p as usize;
                            assert(k < i);
                            assert(was[k] == p as usize);
                        }
                    }
                }
            }
        }
        i = i + 1;
    }
    assert(positions@.take(positions@.len() as int) =~= positions@);
    bitmap
}

/// The rows whose ids pass the filter; nothing without a filter.
pub fn matching_rows<F: RowIdFilter>(ids: &[i64], filter: Option<&F>) -> (rows: Option<
    MatchingRows,
>)
    ensures
        rows is Some == filter is Some,
        rows matches Some(found) ==> {
            &&& found.well_formed(ids@.len())
            &&& forall|p: int|
                0 <= p < ids@.len() ==> #[trigger] found.holds(p) == filter->0.admits(ids@[p])
            &&& found is Sparse == (found.spec_len() <= sparse_limit(ids@.len() as int))
        },
{
    let filter = match filter {
        Some(filter) => filter,
        None => {
            return None;
        },
    };
    let ghost pick = |p: int| filter.admits(ids@[p]);
    let words: usize = quotient_up(ids.len(), 64);
    let limit: usize = saturating_product(words, 8) / (usize::BITS as usize / 8);
    let mut positions: Vec<usize> = Vec::new();
    let mut i: usize = 0;
    while i < ids.len() && positions.len() <= limit
        invariant
            i <= ids@.len(),
            pick == (|p: int| filter.admits(ids@[p])),
            positions@ == picked(pick, i as nat),
            positions@.len() <= limit + 1,
        decreases ids@.len() - i,
    {
        if filter.contains(ids[i]) {
            positions.push(i);
        }
        i = i + 1;
    }
    proof {
        lemma_picked(pick, i as nat);
    }
    if positions.len() <= limit {
        let rows = MatchingRows::Sparse(positions);
        proof {
            let holds = |p: int| rows.holds(p);
            assert forall|p: int| 0 <= p < ids@.len() implies #[trigger] holds(p) == pick(p) by {
                assert(pick(p) <==> picked(pick, ids@.len()).contains(p as usize));
            }
            lemma_picked_agree(holds, pick, ids@.len());
            assert forall|p: int| 0 <= p < ids@.len() implies #[trigger] rows.holds(p)
                == filter.admits(ids@[p]) by {
                assert(holds(p) == pick(p));
            }
        }
        return Some(rows);
    }
    assert forall|k: int| 0 <= k < positions@.len() implies #[trigger] positions@[k] / 64
        < words by {
        assert(positions@[k] < ids@.len());
    }
    let mut bitmap = mark_all(&positions, words);
    let mut len: usize = positions.len();
    assert forall|p: int| p >= 0 implies (#[trigger] marked(bitmap@, p) <==> p < i && pick(p)) by {
        if p < i {
            assert(pick(p) <==> positions@.contains(p as usize));
        } else if p <= usize::MAX && positions@.contains(p as usize) {
            let k = choose|k: int| 0 <= k < positions@.len() && positions@[k] == p as usize;
            assert(positions@[k] < i);
        }
    }
    while i < ids.len()
        invariant
            i <= ids@.len(),
            words == crate::arith::ceil_div(ids@.len() as int, 64),
            bitmap@.len() == words,
            pick == (|p: int| filter.admits(ids@[p])),
            len == picked(pick, i as nat).len(),
            len > limit,
            forall|p: int| p >= 0 ==> (#[trigger] marked(bitmap@, p) <==> p < i && pick(p)),
        decreases ids@.len() - i,
    {
        proof {
            lemma_picked(pick, i as nat);
        }
        if filter.contains(ids[i]) {
            let ghost before = bitmap@;
            let word: u64 = bitmap[i / 64];
            bitmap.set(i / 64, with_word_bit(word, i % 64));
            len = len + 1;
            assert forall|p: int| p >= 0 implies (#[trigger] marked(bitmap@, p) <==> p < i + 1
                && pick(p)) by {
                assert(marked(before, p) <==> p < i && pick(p));
                if p != i {
                    assert(p / 64 != i / 64 || p % 64 != i % 64);
                }
            }
        } else {
            assert(!pick(i as int));
        }
        i = i + 1;
    }
    let rows = MatchingRows::Bitmap { words: bitmap, len };
    proof {
        let holds = |p: int| rows.holds(p);
        assert forall|p: int| 0 <= p < ids@.len() implies #[trigger] holds(p) == pick(p) by {
            assert(marked(bitmap@, p) <==> p < i && pick(p));
        }
        lemma_picked_agree(holds, pick, ids@.len());
        assert forall|p: int| 0 <= p < ids@.len() implies #[trigger] rows.holds(p)
            == filter.admits(ids@[p]) by {
            assert(holds(p) == pick(p));
        }
    }
    Some(rows)
}

/// Whether the rows are few enough to be visited one by one.
pub fn should_scan_sparse(count: usize, rows: &MatchingRows, divisor: usize) -> (sparse: bool)
    ensures
        sparse == (crate::arith::sat_mul(rows.spec_len() as int, divisor as int) <= count),
{
    saturating_product(rows.len(), divisor) <= count
}

/// Whether a scan would visit any row: no filter, or some row that passes it.
pub open spec fn any_matching(rows: Option<&MatchingRows>) -> bool {
    match rows {
        Some(found) => found.spec_len() > 0,
        None => true,
    }
}

pub fn has_matching_rows(rows: Option<&MatchingRows>) -> (any: bool)
    ensures
        any == any_matching(rows),
{
    match rows {
        Some(found) => !found.is_empty(),
        None => true,
    }
}

} // verus!
