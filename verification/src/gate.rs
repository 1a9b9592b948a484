//! The decision between the calling thread and a pool.

use vstd::prelude::*;

verus! {

/// Where an input is mapped.
#[derive(Clone, Copy, Debug, PartialEq, Eq, Structural)]
pub enum Route {
    /// On the calling thread, item by item. Nothing parallel is set up.
    Sequential,
    /// By a pool of workers.
    Parallel,
}

/// An input shorter than the threshold stays on the calling thread; every
/// other input goes to a pool. With a threshold of zero nothing stays.
pub open spec fn route_of(len: int, threshold: int) -> Route {
    if len < threshold {
        Route::Sequential
    } else {
        Route::Parallel
    }
}

/// Decides where an input of `len` items is mapped under `threshold`.
pub fn gate(len: usize, threshold: usize) -> (route: Route)
    ensures
        route == route_of(len as int, threshold as int),
        route == Route::Sequential <==> len < threshold,
{
    if len < threshold {
        Route::Sequential
    } else {
        Route::Parallel
    }
}

} // verus!
