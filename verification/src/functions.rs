//! What a function that is passed as an argument may promise.
use vstd::prelude::*;

verus! {

/// Whether a function has at most one result for each argument.
pub open spec fn has_one_result<A, R, F: Fn(A) -> R>(f: F) -> bool {
    forall|a: A, one: R, other: R| #[trigger]
        call_ensures(f, (a,), one) && #[trigger] call_ensures(f, (a,), other) ==> one == other
}

/// Whether a function of two arguments has at most one result for them.
pub open spec fn has_one_result_of_two<A, B, R, F: Fn(A, B) -> R>(f: F) -> bool {
    forall|a: A, b: B, one: R, other: R| #[trigger]
        call_ensures(f, (a, b), one) && #[trigger] call_ensures(f, (a, b), other) ==> one == other
}

/// Whether a function of three arguments has at most one result for them.
pub open spec fn has_one_result_of_three<A, B, C, R, F: Fn(A, B, C) -> R>(f: F) -> bool {
    forall|a: A, b: B, c: C, one: R, other: R| #[trigger]
        call_ensures(f, (a, b, c), one) && #[trigger] call_ensures(f, (a, b, c), other) ==> one
            == other
}

} // verus!
