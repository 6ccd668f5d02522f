//! Application identifiers: opaque values that can be compared and copied.

use vstd::prelude::*;
use vstd::std_specs::cmp::PartialEqSpec;

verus! {

/// An identifier type is lawful when `==` holds exactly between equal values
/// and a clone is equal to the value that was cloned.
pub open spec fn lawful_id<I: Clone + Eq>() -> bool {
    &&& lawful_eq::<I>()
    &&& forall|a: I, b: I| #[trigger] cloned(a, b) ==> a == b
}

/// `==` holds exactly between equal values.
pub open spec fn lawful_eq<I: Eq>() -> bool {
    &&& I::obeys_eq_spec()
    &&& forall|a: I, b: I| #[trigger] a.eq_spec(&b) <==> a == b
}

/// Whether two identifiers are the same.
pub fn same_id<I: Eq>(left: &I, right: &I) -> (same: bool)
    requires
        lawful_eq::<I>(),
    ensures
        same == (*left == *right),
{
    *left == *right
}

/// A copy of an identifier.
pub fn copy_id<I: Clone + Eq>(id: &I) -> (copy: I)
    requires
        lawful_id::<I>(),
    ensures
        copy == *id,
{
    let copy = id.clone();
    assert(cloned(*id, copy));
    copy
}

} // verus!
