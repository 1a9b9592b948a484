use split_work::affinity::{resolve, PoolPlan, DEFAULT_THREADS};

#[test]
fn default_worker_count_is_four() {
    assert_eq!(DEFAULT_THREADS, 4);
}

#[test]
fn one_worker_per_item_when_cores_abound() {
    let plan = PoolPlan::for_cores(3, Some(vec![0, 1, 2, 3, 4, 5, 6, 7]));
    assert_eq!(plan.nthread, 3);
    assert_eq!(plan.cores, Some(vec![0, 1, 2, 3, 4, 5, 6, 7]));
}

#[test]
fn one_worker_per_core_when_items_abound() {
    let plan = PoolPlan::for_cores(10, Some(vec![2, 3, 5]));
    assert_eq!(plan.nthread, 3);
    assert_eq!(plan.core_of(0), Some(2));
    assert_eq!(plan.core_of(1), Some(3));
    assert_eq!(plan.core_of(2), Some(5));
}

#[test]
fn unknown_cores_fall_back_to_the_default() {
    let plan = PoolPlan::for_cores(10, None);
    assert_eq!(plan.nthread, 4);
    assert_eq!(plan.cores, None);
    assert_eq!(plan.core_of(0), None);
    assert_eq!(plan.core_of(3), None);
}

#[test]
fn unknown_cores_and_few_items() {
    assert_eq!(PoolPlan::for_cores(2, None).nthread, 2);
    assert_eq!(PoolPlan::for_cores(4, None).nthread, 4);
    assert_eq!(PoolPlan::for_cores(5, None).nthread, 4);
}

#[test]
fn no_items_no_workers() {
    assert_eq!(PoolPlan::for_cores(0, None).nthread, 0);
    assert_eq!(PoolPlan::for_cores(0, Some(vec![0, 1])).nthread, 0);
}

#[test]
fn no_cores_no_workers() {
    assert_eq!(PoolPlan::for_cores(5, Some(Vec::new())).nthread, 0);
}

#[test]
fn resolve_plans_for_this_machine() {
    for len in [0usize, 1, 3, 10, 1000] {
        let plan = resolve(len);
        let most = match &plan.cores {
            Some(ids) => ids.len(),
            None => DEFAULT_THREADS,
        };
        assert_eq!(plan.nthread, len.min(most));
        for slot in 0..plan.nthread {
            let expected = plan.cores.as_ref().map(|ids| ids[slot]);
            assert_eq!(plan.core_of(slot), expected);
        }
    }
}

#[test]
fn resolve_agrees_with_core_affinity() {
    let listed = core_affinity::get_core_ids().map(|ids| ids.len());
    let plan = resolve(usize::MAX);
    assert_eq!(plan.cores.as_ref().map(|ids| ids.len()), listed);
}
