//! What one worker of a pool does with one work item.

use vstd::prelude::*;

verus! {

/// `reply` answers `work` under `function`: it carries the index of `work`
/// and a value that `function` can return for its payload.
pub open spec fn is_answer<T, R, F: Fn(T) -> R>(function: F, work: (usize, T), reply: (usize, R)) -> bool {
    &&& reply.0 == work.0
    &&& call_ensures(function, (work.1,), reply.1)
}

/// Applies `function` to the payload of `work` and hands the result back
/// under the index that the work item came with.
pub fn serve<T, R, F: Fn(T) -> R>(work: (usize, T), function: &F) -> (reply: (usize, R))
    requires
        call_requires(*function, (work.1,)),
    ensures
        is_answer(*function, work, reply),
{
    let (index, item) = work;
    (index, function(item))
}

} // verus!
