//! The store built for callers that share it behind a readers-writer lock.
//! The store itself takes every reader by `&` and every writer by `&mut`, which
//! is the readers-writer discipline; the lock, if any, is the caller's.
use vstd::prelude::*;

use crate::cubby::{Cubby, CubbyModel};

verus! {

/// The store as this module builds it.
pub type CubbyRwLock<T> = Cubby<T>;

/// The state of the store that `build(s)` returns.
pub open spec fn built<T>(s: nat) -> CubbyModel<T> {
    CubbyModel::<T>::fresh(s)
}

/// A store with room for `s` entries, all unused.
pub fn build<T>(s: usize) -> (c: CubbyRwLock<T>)
    ensures
        c@ == built::<T>(s as nat),
        c.wf(),
{
    Cubby::new(s)
}

/// The two builds give a store of the same type in the same state, so every
/// later sequence of calls (with the same random draws) answers alike on both.
pub proof fn lemma_builds_agree<T>(s: nat)
    ensures
        crate::mutex::built::<T>(s) == built::<T>(s),
{
}

} // verus!
