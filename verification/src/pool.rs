//! The pool as a whole: work items go out, each is answered once by some
//! worker, the answers come back in any order, and the collector puts them in
//! place.

use crate::collector::{in_index_order, lemma_collect_restores_order, tagged, values_of};
use crate::dispatch::handed_out;
use crate::mapping::is_image;
use crate::worker::is_answer;
use vstd::prelude::*;

verus! {

/// Order preservation for the pool. `replies` holds one answer for each work
/// item that is handed out for `items`, and `mail` holds the same answers in
/// the order in which they happened to arrive. Then what the collector makes
/// of `mail` is an image of `items` under `function`: place `i` holds a
/// result for item `i`, however the workers were scheduled.
pub proof fn lemma_pool_preserves_order<T, R, F: Fn(T) -> R>(
    function: F,
    items: Seq<T>,
    replies: Seq<(usize, R)>,
    mail: Seq<(usize, R)>,
)
    requires
        items.len() <= usize::MAX,
        replies.len() == items.len(),
        forall|j: int|
            0 <= j < items.len() ==> is_answer(
                function,
                handed_out(items, items.len())[j],
                #[trigger] replies[j],
            ),
        mail.to_multiset() == replies.to_multiset(),
    ensures
        is_image(function, items, values_of(in_index_order(mail))),
{
    let len = items.len() as int;
    let values = Seq::new(items.len(), |i: int| replies[len - 1 - i].1);
    let sent = tagged(values);
    assert(sent.reverse() =~= replies) by {
        assert forall|j: int| 0 <= j < len implies sent.reverse()[j] == replies[j] by {
            assert(is_answer(function, handed_out(items, items.len())[j], replies[j]));
        }
    }
    sent.lemma_reverse_to_multiset();
    lemma_collect_restores_order(mail, values);
    assert forall|i: int| 0 <= i < len implies call_ensures(
        function,
        (items[i],),
        #[trigger] values[i],
    ) by {
        assert(is_answer(function, handed_out(items, items.len())[len - 1 - i], replies[len - 1 - i]));
    }
}

} // verus!
