//! Where an index or a slice of a list falls, for indexes counted from the start or
//! from the end of the list.
use vstd::prelude::*;

verus! {

/// Where a slice index counted from the start (or, with `from_end`, from the end) falls
/// in a list of `len` values; an index past the list stops at its edge.
pub open spec fn slice_point(len: int, idx: int, from_end: bool) -> int {
    if from_end {
        if idx <= len {
            len - idx
        } else {
            0
        }
    } else if idx <= len {
        idx
    } else {
        len
    }
}

/// Where a slice index falls in a list of `len` values.
pub fn slice_bound(len: usize, idx: usize, from_end: bool) -> (r: usize)
    ensures
        r == slice_point(len as int, idx as int, from_end),
{
    if from_end {
        len.saturating_sub(idx)
    } else if idx < len {
        idx
    } else {
        len
    }
}

/// The range a slice of a list of `len` values takes: from its start index (the first
/// value without one) to its end index (past the last value without one), and empty
/// when the end comes before the start. Each index is a number and whether it counts
/// from the end.
pub fn slice_range(len: usize, start: Option<(usize, bool)>, end: Option<(usize, bool)>) -> (r: (usize, usize))
    ensures
        r.0 == (match start {
            None => 0,
            Some((i, from_end)) => slice_point(len as int, i as int, from_end),
        }),
        r.1 == (if r.0 > (match end {
            None => len as int,
            Some((i, from_end)) => slice_point(len as int, i as int, from_end),
        }) {
            r.0 as int
        } else {
            match end {
                None => len as int,
                Some((i, from_end)) => slice_point(len as int, i as int, from_end),
            }
        }),
        r.0 <= r.1 <= len,
{
    let start_idx = match start {
        None => 0,
        Some((i, from_end)) => slice_bound(len, i, from_end),
    };
    let end_idx = match end {
        None => len,
        Some((i, from_end)) => slice_bound(len, i, from_end),
    };
    if start_idx > end_idx {
        (start_idx, start_idx)
    } else {
        (start_idx, end_idx)
    }
}

/// The position in a list of `len` values of the value that index `idx` picks, counted
/// from the start, or with `from_end` from the last value back; none past the list.
pub open spec fn position_of(len: int, idx: int, from_end: bool) -> Option<int> {
    if 0 <= idx < len {
        Some(
            if from_end {
                len - idx - 1
            } else {
                idx
            },
        )
    } else {
        None
    }
}

/// Indexes from the start and from the end meet: index `i` from the end picks what
/// index `len - 1 - i` from the start picks, the first value is index 0 from the start
/// and the last is index 0 from the end, and an index picks a value exactly when it is
/// inside the list. Likewise a slice index `i` from the end falls where index `len - i`
/// from the start does, and a slice index never falls outside the list.
pub proof fn lemma_indexes_from_both_ends(len: int, i: int)
    requires
        0 <= len,
        0 <= i,
    ensures
        i < len ==> position_of(len, i, true) == position_of(len, len - 1 - i, false),
        0 < len ==> position_of(len, 0, false) == Some(0int) && position_of(len, 0, true) == Some(len - 1),
        position_of(len, i, false) is Some <==> i < len,
        position_of(len, i, true) is Some <==> i < len,
        position_of(len, i, false) matches Some(k) ==> 0 <= k < len,
        position_of(len, i, true) matches Some(k) ==> 0 <= k < len,
        i <= len ==> slice_point(len, i, true) == slice_point(len, len - i, false),
        0 <= slice_point(len, i, true) <= len,
        0 <= slice_point(len, i, false) <= len,
        slice_point(len, 0, false) == 0 && slice_point(len, 0, true) == len,
        i <= len ==> slice_point(len, i, false) == i,
        i >= len ==> slice_point(len, i, false) == len && slice_point(len, i, true) == 0,
{
}

/// The position in a list of `len` values of the value that an index picks: counted
/// from the start, or with `from_end` from the last value back; none when the index is
/// past the list.
pub fn list_position(len: usize, idx: usize, from_end: bool) -> (r: Option<usize>)
    ensures
        r matches Some(k) ==> position_of(len as int, idx as int, from_end) == Some(k as int),
        r is None ==> position_of(len as int, idx as int, from_end) is None,
{
    if idx < len {
        if from_end {
            Some(len - idx - 1)
        } else {
            Some(idx)
        }
    } else {
        None
    }
}

} // verus!
