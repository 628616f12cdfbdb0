//! The metrics of an index.
use vstd::prelude::*;

verus! {

/// How the distance of two vectors is measured.
#[derive(Debug, Clone, Copy, PartialEq, Eq, Structural)]
pub enum MetricType {
    L2,
    InnerProduct,
    Cosine,
}

/// Two patterns stand for the same number; a NaN equals nothing.
pub open spec fn same_number(a: u32, b: u32) -> bool {
    !crate::order::is_nan(a) && !crate::order::is_nan(b) && crate::order::numeric_key(a)
        == crate::order::numeric_key(b)
}

/// Equal length, and the same number at every place.
pub open spec fn same_numbers(a: Seq<u32>, b: Seq<u32>) -> bool {
    &&& a.len() == b.len()
    &&& forall|i: int| 0 <= i < a.len() ==> same_number(#[trigger] a[i], b[i])
}

/// Compares two vectors number by number.
pub fn equal_numbers(a: &[u32], b: &[u32]) -> (equal: bool)
    ensures
        equal == same_numbers(a@, b@),
{
    if a.len() != b.len() {
        return false;
    }
    let mut i: usize = 0;
    while i < a.len()
        invariant
            i <= a@.len(),
            a@.len() == b@.len(),
            forall|j: int| 0 <= j < i ==> same_number(#[trigger] a@[j], b@[j]),
        decreases a@.len() - i,
    {
        if crate::order::float_is_nan(a[i]) || crate::order::float_is_nan(b[i])
            || crate::order::float_key(a[i]) != crate::order::float_key(b[i]) {
            assert(!same_number(a@[i as int], b@[i as int]));
            return false;
        }
        i = i + 1;
    }
    true
}

/// A copy of the patterns.
pub fn copy_numbers(values: &Vec<u32>) -> (copy: Vec<u32>)
    ensures
        copy@ == values@,
{
    let mut copy: Vec<u32> = Vec::new();
    let mut i: usize = 0;
    while i < values.len()
        invariant
            i <= values@.len(),
            copy@ == values@.take(i as int),
        decreases values@.len() - i,
    {
        copy.push(values[i]);
        assert(values@.take(i + 1) =~= values@.take(i as int).push(values@[i as int]));
        i = i + 1;
    }
    assert(values@.take(values@.len() as int) =~= values@);
    copy
}

} // verus!
