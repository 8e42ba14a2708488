//! Lexicographic order on tuples of integers.
use core::cmp::Ordering;
use vstd::prelude::*;

verus! {

/// How `a` compares to `b`.
pub open spec fn compare(a: int, b: int) -> Ordering {
    if a < b {
        Ordering::Less
    } else if a > b {
        Ordering::Greater
    } else {
        Ordering::Equal
    }
}

/// The order that compares by `first`, and by `second` where `first` ties.
pub open spec fn lexicographic(first: Ordering, second: Ordering) -> Ordering {
    match first {
        Ordering::Equal => second,
        _ => first,
    }
}

} // verus!
