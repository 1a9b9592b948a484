use num_bigint::BigUint;
use split_work::fibonacci::fib;
use split_work::mapping::map_in_order;
use split_work::rayon_backend::split_work_rayon;
use split_work::worker::serve;
use std::cell::Cell;
use std::sync::atomic::{AtomicUsize, Ordering};

fn big_fib(num: usize) -> BigUint {
    BigUint::new(fib(num).digits)
}

fn reference_fib(num: usize) -> BigUint {
    let mut pair = (BigUint::from(0u32), BigUint::from(1u32));
    for _ in 0..num {
        pair = (pair.1.clone(), pair.0 + pair.1);
    }
    pair.0
}

fn demo_input() -> Vec<usize> {
    vec![1000, 1100, 1200, 1300, 1400, 1500, 1600, 1700, 1800, 1900]
}

#[test]
fn map_in_order_applies_to_each_item() {
    assert_eq!(map_in_order(vec![1, 2, 3], &|x: i32| x * 10), vec![10, 20, 30]);
    assert_eq!(map_in_order(Vec::<i32>::new(), &|x: i32| x * 10), Vec::<i32>::new());
    assert_eq!(map_in_order(vec!["a"], &|s: &str| s.len()), vec![1]);
}

#[test]
fn map_in_order_runs_on_the_calling_thread_in_order() {
    let calls = Cell::new(0usize);
    let seen = map_in_order(vec![5, 6, 7], &|x: u32| {
        calls.set(calls.get() + 1);
        (calls.get(), x)
    });
    assert_eq!(seen, vec![(1, 5), (2, 6), (3, 7)]);
}

#[test]
fn serve_keeps_the_index() {
    assert_eq!(serve((7, 3u64), &|x: u64| x * x), (7, 9));
    assert_eq!(serve((0, "abc"), &|s: &str| s.len()), (0, 3));
    assert_eq!(serve((usize::MAX, 1i8), &|x: i8| -x), (usize::MAX, -1));
}

#[test]
fn rayon_demo_above_and_below_threshold() {
    let expected: Vec<BigUint> = demo_input().into_iter().map(reference_fib).collect();
    let parallel = split_work_rayon(demo_input(), big_fib, 8);
    let sequential = split_work_rayon(demo_input(), big_fib, 16);
    assert_eq!(parallel.len(), 10);
    assert_eq!(parallel, expected);
    assert_eq!(sequential, expected);
    assert_eq!(parallel, sequential);
}

#[test]
fn rayon_preserves_order_in_repeated_runs() {
    let input: Vec<usize> = (0..500).collect();
    let expected: Vec<usize> = input.iter().map(|x| x * x + 1).collect();
    for _ in 0..100 {
        assert_eq!(split_work_rayon(input.clone(), |x: usize| x * x + 1, 0), expected);
    }
}

#[test]
fn rayon_empty_and_single() {
    for threshold in [0usize, 1, 8, 16] {
        assert_eq!(split_work_rayon(Vec::<u32>::new(), |x: u32| x + 1, threshold), Vec::<u32>::new());
        assert_eq!(split_work_rayon(vec![41u32], |x: u32| x + 1, threshold), vec![42]);
    }
}

#[test]
fn rayon_below_threshold_stays_on_the_calling_thread() {
    let in_pool = AtomicUsize::new(0);
    let out = split_work_rayon(
        (0..64).collect::<Vec<u32>>(),
        |x: u32| {
            if rayon::current_thread_index().is_some() {
                in_pool.fetch_add(1, Ordering::SeqCst);
            }
            x
        },
        65,
    );
    assert_eq!(out, (0..64).collect::<Vec<u32>>());
    assert_eq!(in_pool.load(Ordering::SeqCst), 0);
}

#[test]
fn rayon_at_threshold_leaves_the_calling_thread() {
    let in_pool = AtomicUsize::new(0);
    let out = split_work_rayon(
        (0..64).collect::<Vec<u32>>(),
        |x: u32| {
            if rayon::current_thread_index().is_some() {
                in_pool.fetch_add(1, Ordering::SeqCst);
            }
            x
        },
        64,
    );
    assert_eq!(out, (0..64).collect::<Vec<u32>>());
    assert_eq!(in_pool.load(Ordering::SeqCst), 64);
}
