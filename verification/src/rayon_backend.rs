//! The same map with rayon's scheduler in place of a pool of one's own.

use crate::gate::{gate, Route};
use crate::mapping::{accepts_all, is_image, map_in_order};
use rayon::iter::{IndexedParallelIterator, IntoParallelIterator, ParallelIterator};
use vstd::prelude::*;

verus! {

/// rayon's `into_par_iter`, `map` and `collect_into_vec` on a `Vec`. rayon
/// documents that `map` applies the function to each item and that
/// `collect_into_vec` clears the target and fills it with the results; for a
/// `Vec` the items keep their places. So the result has one value for each
/// item, at the item's place, and that value is one the function returned for
/// it. None of this is proved here.
#[verifier::external_body]
fn par_map<T, R, F>(vec: Vec<T>, function: F) -> (results: Vec<R>) where
    T: Send,
    R: Send,
    F: Fn(T) -> R + Sync + Send,

    requires
        accepts_all(function, vec@),
    ensures
        is_image(function, vec@, results@),
{
    let mut results = Vec::new();
    vec.into_par_iter().map(function).collect_into_vec(&mut results);
    results
}

/// Maps `vec` through `function`, on the calling thread where `vec` is shorter
/// than `threshold` and with rayon otherwise. Either way the result holds, at
/// each place, what `function` returned for the item at that place.
pub fn split_work_rayon<T, R, F>(vec: Vec<T>, function: F, threshold: usize) -> (results: Vec<R>) where
    T: Send,
    R: Send,
    F: Fn(T) -> R + Sync + Send,

    requires
        accepts_all(function, vec@),
    ensures
        is_image(function, vec@, results@),
{
    match gate(vec.len(), threshold) {
        Route::Sequential => map_in_order(vec, &function),
        Route::Parallel => par_map(vec, function),
    }
}

} // verus!
