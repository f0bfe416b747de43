//! What each operation makes of the values of a list, as functions on
//! sequences.

use vstd::prelude::*;

verus! {

/// The values after `v` was put in front of `s`.
pub open spec fn with_front<T>(s: Seq<T>, v: T) -> Seq<T> {
    seq![v] + s
}

/// The values after `v` was put behind `s`.
pub open spec fn with_back<T>(s: Seq<T>, v: T) -> Seq<T> {
    s.push(v)
}

/// What taking from the front of `s` yields: its first value, or nothing
/// where `s` is empty.
pub open spec fn front_of<T>(s: Seq<T>) -> Option<T> {
    if s.len() == 0 {
        None
    } else {
        Some(s.first())
    }
}

/// What taking from the back of `s` yields: its last value, or nothing
/// where `s` is empty.
pub open spec fn back_of<T>(s: Seq<T>) -> Option<T> {
    if s.len() == 0 {
        None
    } else {
        Some(s.last())
    }
}

/// The values left after taking from the front of `s`.
pub open spec fn without_front<T>(s: Seq<T>) -> Seq<T> {
    if s.len() == 0 {
        s
    } else {
        s.drop_first()
    }
}

/// The values left after taking from the back of `s`.
pub open spec fn without_back<T>(s: Seq<T>) -> Seq<T> {
    if s.len() == 0 {
        s
    } else {
        s.drop_last()
    }
}

} // verus!
