//! The two operations of the reference-counted ownership abstraction that
//! the standard library's specifications do not cover.

use std::sync::Arc;
use vstd::prelude::*;

verus! {

/// Relies on `std::sync::Arc::clone`: the returned handle points at the same
/// allocation as `a`, so it carries the same value.
#[verifier::external_body]
pub(crate) fn arc_dup<T>(a: &Arc<T>) -> (r: Arc<T>)
    ensures
        r == *a,
{
    Arc::clone(a)
}

/// Relies on `std::sync::Arc::try_unwrap`: when `a` is the only handle the
/// value itself comes back, otherwise the same handle is returned.
#[verifier::external_body]
pub(crate) fn arc_unwrap_or_keep<T>(a: Arc<T>) -> (r: Result<T, Arc<T>>)
    ensures
        match r {
            Ok(t) => t == a,
            Err(e) => e == a,
        },
{
    Arc::try_unwrap(a)
}

} // verus!
