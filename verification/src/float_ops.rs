//! Arithmetic on floating-point numbers that is handed in.
use vstd::prelude::*;

verus! {

/// The function is defined on all numbers and always gives the same result.
pub open spec fn is_operation<F: Fn(u32, u32) -> u32>(f: F) -> bool {
    &&& forall|a: u32, b: u32| #[trigger] call_requires(f, (a, b))
    &&& forall|a: u32, b: u32, x: u32, y: u32| #[trigger]
        call_ensures(f, (a, b), x) && #[trigger] call_ensures(f, (a, b), y) ==> x == y
}

/// The result of an operation.
pub open spec fn result_of<F: Fn(u32, u32) -> u32>(f: F, a: u32, b: u32) -> u32 {
    choose|x: u32| call_ensures(f, (a, b), x)
}

pub fn operate<F: Fn(u32, u32) -> u32>(f: &F, a: u32, b: u32) -> (x: u32)
    requires
        is_operation(*f),
    ensures
        x == result_of(*f, a, b),
{
    let x: u32 = f(a, b);
    assert(call_ensures(*f, (a, b), x));
    x
}

/// The function is defined on all numbers and always gives the same result.
pub open spec fn is_map<F: Fn(u32) -> u32>(f: F) -> bool {
    &&& forall|a: u32| #[trigger] call_requires(f, (a,))
    &&& forall|a: u32, x: u32, y: u32| #[trigger]
        call_ensures(f, (a,), x) && #[trigger] call_ensures(f, (a,), y) ==> x == y
}

/// The image of a number.
pub open spec fn image_of<F: Fn(u32) -> u32>(f: F, a: u32) -> u32 {
    choose|x: u32| call_ensures(f, (a,), x)
}

pub fn apply<F: Fn(u32) -> u32>(f: &F, a: u32) -> (x: u32)
    requires
        is_map(*f),
    ensures
        x == image_of(*f, a),
{
    let x: u32 = f(a);
    assert(call_ensures(*f, (a,), x));
    x
}

} // verus!
