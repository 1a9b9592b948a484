//! How many workers a pool gets, and which core each of them is meant for.
//!
//! Where the cores of the machine can be listed, there is at most one worker
//! per core and worker `i` is meant for the `i`-th of them. Where they cannot,
//! a fixed number of workers is used and none is bound to a core.

use vstd::prelude::*;

verus! {

/// The number of workers of a pool when the cores cannot be listed.
pub const DEFAULT_THREADS: usize = 4;

/// The size of a pool and the cores that its workers are meant for.
pub struct PoolPlan {
    /// The number of workers.
    pub nthread: usize,
    /// The identifiers of the cores in the order in which they were listed,
    /// or `None` where they could not be listed.
    pub cores: Option<Vec<usize>>,
}

/// The number of workers for `len` items: one per item, but no more than
/// there are cores, or than `DEFAULT_THREADS` where no cores are known.
pub open spec fn pool_size(len: int, cores: Option<Vec<usize>>) -> int {
    let most = match cores {
        Some(ids) => ids@.len() as int,
        None => DEFAULT_THREADS as int,
    };
    if len <= most {
        len
    } else {
        most
    }
}

impl PoolPlan {
    /// Every worker of the plan has a core wherever cores are known.
    pub open spec fn wf(&self) -> bool {
        self.cores matches Some(ids) ==> self.nthread <= ids@.len()
    }

    /// The core that worker `slot` is meant for.
    pub open spec fn core_at(&self, slot: int) -> Option<usize> {
        match self.cores {
            Some(ids) => Some(ids@[slot]),
            None => None,
        }
    }

    /// The plan for `len` items on a machine whose cores are `cores`.
    pub fn for_cores(len: usize, cores: Option<Vec<usize>>) -> (plan: PoolPlan)
        ensures
            plan.cores == cores,
            plan.nthread == pool_size(len as int, cores),
            plan.wf(),
    {
        let most: usize = match &cores {
            Some(ids) => ids.len(),
            None => DEFAULT_THREADS,
        };
        let nthread: usize = if len <= most {
            len
        } else {
            most
        };
        PoolPlan { nthread, cores }
    }

    /// The core that worker `slot` is to be bound to, if any.
    pub fn core_of(&self, slot: usize) -> (core: Option<usize>)
        requires
            self.wf(),
            slot < self.nthread,
        ensures
            core == self.core_at(slot as int),
    {
        match &self.cores {
            Some(ids) => Some(ids[slot]),
            None => None,
        }
    }
}

/// `core_affinity::get_core_ids`: the cores on which the current thread may
/// run, each given by its number, or `None` where they cannot be listed. What
/// comes back depends on the machine, so nothing is claimed of it.
#[verifier::external_body]
fn listed_cores() -> (cores: Option<Vec<usize>>) {
    core_affinity::get_core_ids().map(|ids| ids.into_iter().map(|core| core.id).collect())
}

/// Lists the cores of this machine and plans a pool for `len` items on them.
pub fn resolve(len: usize) -> (plan: PoolPlan)
    ensures
        plan.nthread == pool_size(len as int, plan.cores),
        plan.wf(),
{
    PoolPlan::for_cores(len, listed_cores())
}

} // verus!
