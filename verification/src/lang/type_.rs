//! Types built from other types.

use vstd::prelude::*;
use crate::lang::value::Value;

verus! {

/// The values of either of two types.
pub struct TypeUnion {
    pub left: Value,
    pub right: Value,
}

impl TypeUnion {
    pub fn new(left: Value, right: Value) -> (t: TypeUnion)
        ensures
            t.left == left,
            t.right == right,
    {
        TypeUnion { left, right }
    }
}

/// The values of both of two types.
pub struct TypeIntersection {
    pub left: Value,
    pub right: Value,
}

} // verus!
