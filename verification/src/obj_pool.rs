//! References into a pool of values.
use vstd::prelude::*;

verus! {

/// A reference to a value held in an object pool: the slot that holds it.
pub struct ObjPoolRef {
    idx: usize,
}

} // verus!
