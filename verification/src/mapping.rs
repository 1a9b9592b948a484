//! What it means for a sequence of results to be the image of a sequence of
//! items under a function, and the sequential way of computing it.

use vstd::prelude::*;

verus! {

/// `function` may be called on every item of `items`.
pub open spec fn accepts_all<T, R, F: Fn(T) -> R>(function: F, items: Seq<T>) -> bool {
    forall|i: int| 0 <= i < items.len() ==> call_requires(function, (#[trigger] items[i],))
}

/// `results` is an image of `items` under `function`: it has the same length
/// and, at every position, holds a value that `function` can return for the
/// item at that position.
pub open spec fn is_image<T, R, F: Fn(T) -> R>(function: F, items: Seq<T>, results: Seq<R>) -> bool {
    &&& results.len() == items.len()
    &&& forall|i: int|
        0 <= i < items.len() ==> call_ensures(function, (items[i],), #[trigger] results[i])
}

/// Applies `function` to each item in turn, on the calling thread.
pub fn map_in_order<T, R, F: Fn(T) -> R>(vec: Vec<T>, function: &F) -> (results: Vec<R>)
    requires
        accepts_all(*function, vec@),
    ensures
        is_image(*function, vec@, results@),
{
    let mut results: Vec<R> = Vec::with_capacity(vec.len());
    let ghost items = vec@;
    for item in iter: vec
        invariant
            iter.seq() == items,
            accepts_all(*function, items),
            results@.len() == iter.index(),
            forall|i: int|
                0 <= i < iter.index() ==> call_ensures(
                    *function,
                    (items[i],),
                    #[trigger] results@[i],
                ),
    {
        results.push(function(item));
    }
    results
}

/// `function` can return only one value for each item.
pub open spec fn is_deterministic<T, R, F: Fn(T) -> R>(function: F) -> bool {
    forall|item: T, first: R, second: R|
        call_ensures(function, (item,), first) && call_ensures(function, (item,), second)
            ==> first == second
}

/// Backend equivalence. Two images of the same items under the same function
/// are the same sequence when the function is deterministic: whichever way an
/// image was computed, on the calling thread, by a pool or by another
/// scheduler, the results are identical.
pub proof fn lemma_images_agree<T, R, F: Fn(T) -> R>(
    function: F,
    items: Seq<T>,
    first: Seq<R>,
    second: Seq<R>,
)
    requires
        is_deterministic(function),
        is_image(function, items, first),
        is_image(function, items, second),
    ensures
        first == second,
{
    assert(first =~= second);
}

} // verus!
