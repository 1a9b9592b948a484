//! Putting results that arrived in any order back into input order.
//!
//! Every result travels with the index of the item it was computed from. The
//! collector orders what arrived by that index and then drops the indices.

use crate::mapping::is_image;
use vstd::prelude::*;

verus! {

/// The indices never go down along `mail`.
pub open spec fn is_ascending<R>(mail: Seq<(usize, R)>) -> bool {
    forall|i: int, j: int| 0 <= i < j < mail.len() ==> mail[i].0 <= mail[j].0
}

/// The entries of `mail` that carry the index `k`, in the order in which
/// they stand in `mail`.
pub open spec fn tagged_with<R>(mail: Seq<(usize, R)>, k: usize) -> Seq<(usize, R)> {
    mail.filter(|entry: (usize, R)| entry.0 == k)
}

/// The entries of `mail` whose index is below `bound`, in the order in which
/// they stand in `mail`.
spec fn below<R>(mail: Seq<(usize, R)>, bound: nat) -> Seq<(usize, R)> {
    mail.filter(|entry: (usize, R)| (entry.0 as nat) < bound)
}

/// For each index below `bound`, lowest first, the entries of `mail` that
/// carry it, in the order in which they stand in `mail`.
pub open spec fn gathered<R>(mail: Seq<(usize, R)>, bound: nat) -> Seq<(usize, R)>
    decreases bound,
{
    if bound == 0 {
        Seq::empty()
    } else {
        gathered(mail, (bound - 1) as nat) + tagged_with(mail, (bound - 1) as usize)
    }
}

/// `mail` ordered by index, entries with the same index staying in the order
/// in which they arrived.
pub open spec fn in_index_order<R>(mail: Seq<(usize, R)>) -> Seq<(usize, R)> {
    gathered(mail, usize::MAX as nat + 1)
}

/// The values of `mail` without their indices.
pub open spec fn values_of<R>(mail: Seq<(usize, R)>) -> Seq<R> {
    mail.map_values(|entry: (usize, R)| entry.1)
}

/// `Vec::sort_by_key` of the standard library with the index as the key. It
/// is documented to sort ascending by key and to be stable: afterwards the
/// indices never go down, and for each index the entries that carry it are
/// the same as before, in the same order. None of this is proved here.
#[verifier::external_body]
fn sort_by_index<R>(mail: &mut Vec<(usize, R)>)
    ensures
        is_ascending(final(mail)@),
        forall|k: usize| #[trigger] tagged_with(final(mail)@, k) == tagged_with(old(mail)@, k),
{
    mail.sort_by_key(|entry| entry.0);
}

/// Orders what arrived by index and returns the values alone.
///
/// The result is the same whatever stands in `mail`: entries with the same
/// index keep the order in which they arrived, and a missing index leaves no
/// gap.
pub fn collect<R>(mail: Vec<(usize, R)>) -> (results: Vec<R>)
    ensures
        results@ == values_of(in_index_order(mail@)),
{
    let ghost arrived = mail@;
    let mut mail = mail;
    sort_by_index(&mut mail);
    let ghost sorted = mail@;
    proof {
        lemma_stable_ordering_is_unique(arrived, sorted);
    }
    let mut results: Vec<R> = Vec::with_capacity(mail.len());
    for entry in iter: mail
        invariant
            iter.seq() == sorted,
            results@.len() == iter.index(),
            forall|i: int| 0 <= i < iter.index() ==> results@[i] == sorted[i].1,
    {
        results.push(entry.1);
    }
    assert(results@ =~= values_of(sorted));
    results
}

proof fn lemma_tagged_with_absent<R>(mail: Seq<(usize, R)>, k: usize)
    requires
        forall|i: int| 0 <= i < mail.len() ==> mail[i].0 != k,
    ensures
        tagged_with(mail, k) == Seq::<(usize, R)>::empty(),
    decreases mail.len(),
{
    reveal(Seq::filter);
    if mail.len() > 0 {
        lemma_tagged_with_absent(mail.drop_last(), k);
    }
}

proof fn lemma_tagged_with_carries<R>(mail: Seq<(usize, R)>, k: usize)
    ensures
        forall|i: int|
            0 <= i < tagged_with(mail, k).len() ==> (#[trigger] tagged_with(mail, k)[i]).0 == k,
    decreases mail.len(),
{
    reveal(Seq::filter);
    if mail.len() > 0 {
        lemma_tagged_with_carries(mail.drop_last(), k);
    }
}

proof fn lemma_below_everything<R>(mail: Seq<(usize, R)>)
    ensures
        below(mail, usize::MAX as nat + 1) == mail,
    decreases mail.len(),
{
    reveal(Seq::filter);
    if mail.len() > 0 {
        lemma_below_everything(mail.drop_last());
        assert(mail.drop_last().push(mail.last()) =~= mail);
    }
}

proof fn lemma_below_next<R>(mail: Seq<(usize, R)>, k: usize)
    requires
        is_ascending(mail),
    ensures
        below(mail, k as nat + 1) == below(mail, k as nat) + tagged_with(mail, k),
    decreases mail.len(),
{
    reveal(Seq::filter);
    if mail.len() == 0 {
        assert(below(mail, k as nat + 1) =~= below(mail, k as nat) + tagged_with(mail, k));
    } else {
        let rest = mail.drop_last();
        let last = mail.last();
        assert(is_ascending(rest));
        lemma_below_next(rest, k);
        if last.0 < k {
            assert forall|i: int| 0 <= i < rest.len() implies rest[i].0 != k by {
                assert(rest[i] == mail[i]);
            }
            lemma_tagged_with_absent(rest, k);
        }
        assert(below(mail, k as nat + 1) =~= below(mail, k as nat) + tagged_with(mail, k));
    }
}

proof fn lemma_gathered_of_ascending<R>(mail: Seq<(usize, R)>, bound: nat)
    requires
        is_ascending(mail),
        bound <= usize::MAX as nat + 1,
    ensures
        gathered(mail, bound) == below(mail, bound),
    decreases bound,
{
    if bound == 0 {
        lemma_below_nothing(mail);
    } else {
        lemma_gathered_of_ascending(mail, (bound - 1) as nat);
        lemma_below_next(mail, (bound - 1) as usize);
    }
}

proof fn lemma_below_nothing<R>(mail: Seq<(usize, R)>)
    ensures
        below(mail, 0) == Seq::<(usize, R)>::empty(),
    decreases mail.len(),
{
    reveal(Seq::filter);
    if mail.len() > 0 {
        lemma_below_nothing(mail.drop_last());
    }
}

proof fn lemma_gathered_by_tags<R>(first: Seq<(usize, R)>, second: Seq<(usize, R)>, bound: nat)
    requires
        forall|k: usize| #[trigger] tagged_with(first, k) == tagged_with(second, k),
    ensures
        gathered(first, bound) == gathered(second, bound),
    decreases bound,
{
    if bound > 0 {
        lemma_gathered_by_tags(first, second, (bound - 1) as nat);
    }
}

/// An ascending sequence that holds, for each index, the same entries in the
/// same order as `mail` is `mail` in index order: there is only one such.
pub proof fn lemma_stable_ordering_is_unique<R>(mail: Seq<(usize, R)>, sorted: Seq<(usize, R)>)
    requires
        is_ascending(sorted),
        forall|k: usize| #[trigger] tagged_with(sorted, k) == tagged_with(mail, k),
    ensures
        sorted == in_index_order(mail),
{
    let bound = usize::MAX as nat + 1;
    lemma_gathered_of_ascending(sorted, bound);
    lemma_below_everything(sorted);
    lemma_gathered_by_tags(sorted, mail, bound);
}

/// Each value of `values` with its position as index: what a pool sends back
/// for a whole input, in input order.
pub open spec fn tagged<R>(values: Seq<R>) -> Seq<(usize, R)> {
    Seq::new(values.len(), |i: int| (i as usize, values[i]))
}

proof fn lemma_below_next_permutes<R>(mail: Seq<(usize, R)>, k: usize)
    ensures
        below(mail, k as nat + 1).to_multiset() =~= below(mail, k as nat).to_multiset().add(
            tagged_with(mail, k).to_multiset(),
        ),
    decreases mail.len(),
{
    reveal(Seq::filter);
    broadcast use vstd::seq_lib::group_to_multiset_ensures;
    broadcast use vstd::multiset::group_multiset_axioms;

    if mail.len() > 0 {
        lemma_below_next_permutes(mail.drop_last(), k);
    }
}

proof fn lemma_gathered_permutes<R>(mail: Seq<(usize, R)>, bound: nat)
    requires
        bound <= usize::MAX as nat + 1,
    ensures
        gathered(mail, bound).to_multiset() =~= below(mail, bound).to_multiset(),
    decreases bound,
{
    if bound == 0 {
        lemma_below_nothing(mail);
    } else {
        let k = (bound - 1) as usize;
        lemma_gathered_permutes(mail, (bound - 1) as nat);
        lemma_below_next_permutes(mail, k);
        vstd::seq_lib::lemma_multiset_commutative(
            gathered(mail, (bound - 1) as nat),
            tagged_with(mail, k),
        );
    }
}

proof fn lemma_gathered_ascends<R>(mail: Seq<(usize, R)>, bound: nat)
    requires
        bound <= usize::MAX as nat + 1,
    ensures
        is_ascending(gathered(mail, bound)),
        forall|i: int|
            0 <= i < gathered(mail, bound).len() ==> (#[trigger] gathered(mail, bound)[i]).0
                < bound,
    decreases bound,
{
    if bound > 0 {
        let k = (bound - 1) as usize;
        let lower = gathered(mail, (bound - 1) as nat);
        let top = tagged_with(mail, k);
        lemma_gathered_ascends(mail, (bound - 1) as nat);
        lemma_tagged_with_carries(mail, k);
        let all = gathered(mail, bound);
        assert(all == lower + top);
        assert forall|i: int| 0 <= i < all.len() implies (#[trigger] all[i]).0 < bound by {
            if i < lower.len() {
                assert(all[i] == lower[i]);
            } else {
                assert(all[i] == top[i - lower.len()]);
            }
        }
        assert forall|i: int, j: int| 0 <= i < j < all.len() implies all[i].0 <= all[j].0 by {
            if j < lower.len() {
                assert(all[i] == lower[i] && all[j] == lower[j]);
            } else if i < lower.len() {
                assert(all[i] == lower[i] && all[j] == top[j - lower.len()]);
            } else {
                assert(all[i] == top[i - lower.len()] && all[j] == top[j - lower.len()]);
            }
        }
    }
}

/// Ordering by index only moves entries. Afterwards the indices never go
/// down, and every entry is there exactly as often as before, so that nothing
/// is lost and nothing is made up.
pub proof fn lemma_in_index_order_permutes<R>(mail: Seq<(usize, R)>)
    ensures
        is_ascending(in_index_order(mail)),
        in_index_order(mail).to_multiset() == mail.to_multiset(),
        in_index_order(mail).len() == mail.len(),
{
    let bound = usize::MAX as nat + 1;
    lemma_gathered_ascends(mail, bound);
    lemma_gathered_permutes(mail, bound);
    lemma_below_everything(mail);
    mail.to_multiset_ensures();
    in_index_order(mail).to_multiset_ensures();
}

proof fn lemma_index_not_below_position<R>(mail: Seq<(usize, R)>, i: int)
    requires
        forall|a: int, b: int| 0 <= a < b < mail.len() ==> mail[a].0 < mail[b].0,
        0 <= i < mail.len(),
    ensures
        mail[i].0 >= i,
    decreases i,
{
    if i > 0 {
        lemma_index_not_below_position(mail, i - 1);
    }
}

proof fn lemma_index_not_above_position<R>(mail: Seq<(usize, R)>, i: int)
    requires
        forall|a: int, b: int| 0 <= a < b < mail.len() ==> mail[a].0 < mail[b].0,
        forall|a: int| 0 <= a < mail.len() ==> mail[a].0 < mail.len(),
        0 <= i < mail.len(),
    ensures
        mail[i].0 <= i,
    decreases mail.len() - i,
{
    if i + 1 < mail.len() {
        lemma_index_not_above_position(mail, i + 1);
    }
}

/// No index stands twice in `mail`, and each is below the number of entries:
/// every index from zero up to that number arrived exactly once.
pub open spec fn is_complete<R>(mail: Seq<(usize, R)>) -> bool {
    &&& forall|a: int, b: int| 0 <= a < b < mail.len() ==> mail[a].0 != mail[b].0
    &&& forall|a: int| 0 <= a < mail.len() ==> (#[trigger] mail[a]).0 < mail.len()
}

/// When every index arrived exactly once, ordering by index puts the entry
/// with index `i` at place `i`, whatever the order of arrival was.
pub proof fn lemma_complete_mail_lands_in_place<R>(mail: Seq<(usize, R)>)
    requires
        is_complete(mail),
    ensures
        in_index_order(mail).len() == mail.len(),
        forall|i: int|
            0 <= i < mail.len() ==> (#[trigger] in_index_order(mail)[i]).0 == i && mail.contains(
                in_index_order(mail)[i],
            ),
{
    let sorted = in_index_order(mail);
    lemma_in_index_order_permutes(mail);
    mail.to_multiset_ensures();
    sorted.to_multiset_ensures();
    assert(mail.no_duplicates());
    mail.lemma_multiset_has_no_duplicates();
    sorted.lemma_multiset_has_no_duplicates_conv();
    assert forall|i: int| 0 <= i < sorted.len() implies mail.contains(#[trigger] sorted[i]) by {
        assert(sorted.contains(sorted[i]));
        assert(sorted.to_multiset().count(sorted[i]) > 0);
        assert(mail.to_multiset().count(sorted[i]) > 0);
    }
    assert forall|a: int, b: int| 0 <= a < b < sorted.len() implies sorted[a].0
        < sorted[b].0 by {
        if sorted[a].0 == sorted[b].0 {
            let x = choose|x: int| 0 <= x < mail.len() && mail[x] == sorted[a];
            let y = choose|y: int| 0 <= y < mail.len() && mail[y] == sorted[b];
            assert(x == y);
        }
    }
    assert forall|i: int| 0 <= i < sorted.len() implies (#[trigger] sorted[i]).0 == i by {
        let x = choose|x: int| 0 <= x < mail.len() && mail[x] == sorted[i];
        assert forall|a: int| 0 <= a < sorted.len() implies sorted[a].0 < sorted.len() by {
            let y = choose|y: int| 0 <= y < mail.len() && mail[y] == sorted[a];
        }
        lemma_index_not_below_position(sorted, i);
        lemma_index_not_above_position(sorted, i);
    }
}

/// Order preservation, over what is sent. When what arrived is, in whatever
/// order, exactly one entry for each place of `values`, carrying that place
/// as its index and the value that belongs there, then ordering by index and
/// dropping the indices gives `values` back.
pub proof fn lemma_collect_restores_order<R>(mail: Seq<(usize, R)>, values: Seq<R>)
    requires
        values.len() <= usize::MAX,
        mail.to_multiset() == tagged(values).to_multiset(),
    ensures
        values_of(in_index_order(mail)) == values,
{
    let sent = tagged(values);
    let sorted = in_index_order(mail);
    sent.to_multiset_ensures();
    mail.to_multiset_ensures();
    assert(sent.no_duplicates());
    sent.lemma_multiset_has_no_duplicates();
    mail.lemma_multiset_has_no_duplicates_conv();
    assert forall|a: int| 0 <= a < mail.len() implies sent.contains(#[trigger] mail[a]) by {
        assert(mail.contains(mail[a]));
        assert(mail.to_multiset().count(mail[a]) > 0);
    }
    assert forall|a: int| 0 <= a < mail.len() implies mail[a] == sent[mail[a].0 as int]
        && (#[trigger] mail[a]).0 < mail.len() by {
        let x = choose|x: int| 0 <= x < sent.len() && sent[x] == mail[a];
    }
    assert forall|a: int, b: int| 0 <= a < b < mail.len() implies mail[a].0 != mail[b].0 by {
        if mail[a].0 == mail[b].0 {
            assert(mail[a] == mail[b]);
        }
    }
    lemma_complete_mail_lands_in_place(mail);
    assert forall|i: int| 0 <= i < sorted.len() implies sorted[i] == sent[i] by {
        let x = choose|x: int| 0 <= x < mail.len() && mail[x] == sorted[i];
    }
    assert(values_of(sorted) =~= values);
}

/// Order preservation, over the function. When every index of `items`
/// arrived exactly once, each with a value that `function` returned for the
/// item at that index, then what the collector returns is an image of `items`
/// under `function`: place `i` holds the result for item `i`, whatever the
/// order of arrival was.
pub proof fn lemma_collect_gives_image<T, R, F: Fn(T) -> R>(
    function: F,
    items: Seq<T>,
    mail: Seq<(usize, R)>,
)
    requires
        mail.len() == items.len(),
        is_complete(mail),
        forall|a: int|
            0 <= a < mail.len() ==> call_ensures(
                function,
                (items[(#[trigger] mail[a]).0 as int],),
                mail[a].1,
            ),
    ensures
        is_image(function, items, values_of(in_index_order(mail))),
{
    let sorted = in_index_order(mail);
    lemma_complete_mail_lands_in_place(mail);
    assert forall|i: int| 0 <= i < items.len() implies call_ensures(
        function,
        (items[i],),
        #[trigger] values_of(sorted)[i],
    ) by {
        let x = choose|x: int| 0 <= x < mail.len() && mail[x] == sorted[i];
        assert(sorted[i].0 == i);
    }
}

} // verus!
