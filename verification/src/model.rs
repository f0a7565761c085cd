//! The mathematical model of the container: a map from the key of a type to
//! the queue of the values of that type, oldest first.
//!
//! The contracts of [`crate::Dfb`] are stated over the functions of this
//! module, and the laws in [`crate::laws`] are proved of them.

use crate::erased::erased_key;
use crate::erased::Erased;
use core::any::TypeId;
use std::collections::VecDeque;
use vstd::prelude::*;

verus! {

/// What a container holds: for each stored type its queue, oldest value first.
pub type Queues = Map<TypeId, Seq<Erased>>;

/// `queue` may rest under `key`: it is not empty, and every value in it has
/// `key` as the key of its runtime type.
pub open spec fn well_filed(key: TypeId, queue: Seq<Erased>) -> bool {
    &&& queue.len() > 0
    &&& forall|i: int| 0 <= i < queue.len() ==> erased_key(#[trigger] queue[i]) == key
}

/// The model of a container at rest: finitely many keys, each with a queue
/// that may rest under it.
pub open spec fn model_wf(m: Queues) -> bool {
    &&& m.dom().finite()
    &&& forall|key: TypeId| #[trigger] m.contains_key(key) ==> well_filed(key, m[key])
}

/// The queue under `key`; empty where the key is absent.
pub open spec fn queue_of(m: Queues, key: TypeId) -> Seq<Erased> {
    if m.contains_key(key) {
        m[key]
    } else {
        Seq::empty()
    }
}

/// `m` after `e` joined the back of the queue of its own type.
pub open spec fn filed(m: Queues, e: Erased) -> Queues {
    m.insert(erased_key(e), queue_of(m, erased_key(e)).push(e))
}

/// The oldest value under `key`, if there is one.
pub open spec fn oldest(m: Queues, key: TypeId) -> Option<Erased> {
    if queue_of(m, key).len() > 0 {
        Some(queue_of(m, key)[0])
    } else {
        None
    }
}

/// `m` after the oldest value under `key` left. A queue that would be left
/// empty leaves with it.
pub open spec fn taken(m: Queues, key: TypeId) -> Queues {
    if queue_of(m, key).len() > 1 {
        m.insert(key, queue_of(m, key).drop_first())
    } else {
        m.remove(key)
    }
}

/// The values of `items` whose runtime type has the key `key`, in the order of
/// `items`.
pub open spec fn of_key(items: Seq<Erased>, key: TypeId) -> Seq<Erased> {
    items.filter(|e: Erased| erased_key(e) == key)
}

/// `items` sorted into queues by runtime type.
pub open spec fn grouped(items: Seq<Erased>) -> Queues {
    Map::new(|key: TypeId| of_key(items, key).len() > 0, |key: TypeId| of_key(items, key))
}

/// `m` after `items` were filed one by one, first to last.
pub open spec fn filed_all(m: Queues, items: Seq<Erased>) -> Queues
    decreases items.len(),
{
    if items.len() == 0 {
        m
    } else {
        filed(filed_all(m, items.drop_last()), items.last())
    }
}

/// `m` after `count` values were taken from under `key`.
pub open spec fn taken_times(m: Queues, key: TypeId, count: nat) -> Queues
    decreases count,
{
    if count == 0 {
        m
    } else {
        taken(taken_times(m, key, (count - 1) as nat), key)
    }
}

/// `after` is `before` but for the value `index` places behind the oldest under
/// `key`, which was rewritten in place by a value of the same runtime type.
pub open spec fn rewritten_at(before: Queues, after: Queues, key: TypeId, index: int) -> bool {
    &&& before.contains_key(key)
    &&& 0 <= index < before[key].len()
    &&& after.contains_key(key)
    &&& erased_key(after[key][index]) == key
    &&& after == before.insert(key, before[key].update(index, after[key][index]))
}

/// What taking from under `key` makes of `before`, and whether it gives a
/// value: it gives one exactly where a value is stored under `key`.
pub open spec fn took(before: Queues, after: Queues, key: TypeId, gave: bool) -> bool {
    &&& gave == before.contains_key(key)
    &&& after == taken(before, key)
}

/// What lending the value `index` places behind the oldest under `key` makes
/// of `before`, and whether a value is lent: one is lent exactly where the
/// queue under `key` is that long. What is lent may be rewritten by a value of
/// the same runtime type; where nothing is lent, nothing changes.
pub open spec fn lent(before: Queues, after: Queues, key: TypeId, index: int, gave: bool) -> bool {
    &&& gave == (before.contains_key(key) && 0 <= index < before[key].len())
    &&& if gave {
        rewritten_at(before, after, key, index)
    } else {
        after == before
    }
}

/// The pairs of a list, each queue by its view.
pub open spec fn views_of(pairs: Seq<(TypeId, VecDeque<Erased>)>) -> Seq<(TypeId, Seq<Erased>)> {
    pairs.map_values(|p: (TypeId, VecDeque<Erased>)| (p.0, p.1@))
}

/// The values of all the queues of `pairs`, queue after queue in the order of
/// the pairs, each queue oldest first.
pub open spec fn flat(pairs: Seq<(TypeId, Seq<Erased>)>) -> Seq<Erased>
    decreases pairs.len(),
{
    if pairs.len() == 0 {
        Seq::empty()
    } else {
        flat(pairs.drop_last()) + pairs.last().1
    }
}

/// `m` after the pair `(key, queue)` was offered to it: a queue that may rest
/// under `key` takes the place of whatever was there, any other is turned away.
pub open spec fn adopted(m: Queues, key: TypeId, queue: Seq<Erased>) -> Queues {
    if well_filed(key, queue) {
        m.insert(key, queue)
    } else {
        m
    }
}

/// `m` after `pairs` were offered to it one by one, first to last.
pub open spec fn merged(m: Queues, pairs: Seq<(TypeId, Seq<Erased>)>) -> Queues
    decreases pairs.len(),
{
    if pairs.len() == 0 {
        m
    } else {
        adopted(merged(m, pairs.drop_last()), pairs.last().0, pairs.last().1)
    }
}

/// Grouping one value more is filing it into what was grouped before.
pub proof fn lemma_grouped_push(items: Seq<Erased>, e: Erased)
    ensures
        grouped(items.push(e)) == filed(grouped(items), e),
{
    let before = grouped(items);
    let after = grouped(items.push(e));
    assert forall|k: TypeId| of_key(items.push(e), k) == if erased_key(e) == k {
        of_key(items, k).push(e)
    } else {
        of_key(items, k)
    } by {
        items.lemma_filter_push(e, |x: Erased| erased_key(x) == k);
    }
    let key = erased_key(e);
    if !before.contains_key(key) {
        assert(of_key(items, key) =~= Seq::empty());
    }
    assert forall|k: TypeId| after.contains_key(k) == filed(before, e).contains_key(k) by {
        if k == key {
            assert(of_key(items, k).push(e).len() > 0);
        }
    }
    assert forall|k: TypeId| #[trigger] after.contains_key(k) implies after[k] == filed(before, e)[k] by {}
    assert(after =~= filed(before, e));
}

/// Nothing grouped is nothing stored.
pub proof fn lemma_grouped_empty()
    ensures
        grouped(Seq::empty()) == Map::<TypeId, Seq<Erased>>::empty(),
{
    assert forall|k: TypeId| of_key(Seq::empty(), k).len() == 0 by {
        Seq::<Erased>::empty().lemma_filter_len(|x: Erased| erased_key(x) == k);
    }
    assert(grouped(Seq::empty()) =~= Map::<TypeId, Seq<Erased>>::empty());
}

/// Grouping is filing one by one into an empty container.
pub proof fn lemma_grouped_is_filed_all(items: Seq<Erased>)
    ensures
        grouped(items) == filed_all(Map::empty(), items),
    decreases items.len(),
{
    if items.len() == 0 {
        lemma_grouped_empty();
        assert(items =~= Seq::empty());
    } else {
        lemma_grouped_is_filed_all(items.drop_last());
        lemma_grouped_push(items.drop_last(), items.last());
        assert(items.drop_last().push(items.last()) =~= items);
    }
}

/// Grouping two runs of values, one after the other, is filing the second run
/// into what the first was grouped to.
pub proof fn lemma_grouped_add(first: Seq<Erased>, second: Seq<Erased>)
    ensures
        grouped(first + second) == filed_all(grouped(first), second),
    decreases second.len(),
{
    if second.len() == 0 {
        assert(first + second =~= first);
    } else {
        let front = second.drop_last();
        lemma_grouped_add(first, front);
        lemma_grouped_push(first + front, second.last());
        assert((first + front).push(second.last()) =~= first + second);
    }
}

} // verus!
