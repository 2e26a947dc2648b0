//! Shared values.
use std::rc::Rc;
use vstd::prelude::*;

verus! {

/// Another handle to the shared value, by `Clone::clone` of `Rc`: the new
/// handle refers to the same value.
#[verifier::external_body]
pub(crate) fn share<T>(value: &Rc<T>) -> (handle: Rc<T>)
    ensures
        handle == *value,
{
    Rc::clone(value)
}

} // verus!
