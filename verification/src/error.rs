//! The few failures that leave no broken state behind get a variant here;
//! everything else is an invariant of the simulation.

use vstd::prelude::*;

verus! {

/// Failures of the simulation rules.
#[derive(Debug, Clone, Copy, PartialEq, Eq, Structural)]
pub enum Error {
    NoPath,
    NoSuchComponent,
    NoSuchEdge,
    Occupied,
    PathIxOverflow,
    PoolUnderflow,
    PullChannel,
    StorageOverflow,
    WrongEdge,
}

pub type Result<T> = core::result::Result<T, Error>;

/// Runs a fallible block whose every outcome is a success and returns its
/// value; the caller proves that no outcome of `f` is an error.
pub fn or_die<T, F: FnOnce() -> Result<T>>(f: F) -> (t: T)
    requires
        f.requires(()),
        forall|r: Result<T>| f.ensures((), r) ==> r is Ok,
    ensures
        f.ensures((), Ok(t)),
{
    match f() {
        Ok(t) => t,
        Err(_) => vstd::pervasive::unreached(),
    }
}

} // verus!
