//! The store built for callers that share it behind a mutual-exclusion lock.
//! The store itself takes every reader by `&` and every writer by `&mut`, so
//! the lock, if any, is the caller's.
use vstd::prelude::*;

use crate::cubby::{Cubby, CubbyModel};

verus! {

/// The store as this module builds it.
pub type CubbyMutex<T> = Cubby<T>;

/// The state of the store that `build(s)` returns.
pub open spec fn built<T>(s: nat) -> CubbyModel<T> {
    CubbyModel::<T>::fresh(s)
}

/// A store with room for `s` entries, all unused.
pub fn build<T>(s: usize) -> (c: CubbyMutex<T>)
    ensures
        c@ == built::<T>(s as nat),
        c.wf(),
{
    Cubby::new(s)
}

} // verus!
