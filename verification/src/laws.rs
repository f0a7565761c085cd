//! What holds of the container whatever is done with it, proved of the model
//! that its contracts are stated over.

use crate::erased::erased_key;
use crate::erased::Erased;
use crate::map::Dfb;
use crate::model::adopted;
use crate::model::filed;
use crate::model::filed_all;
use crate::model::flat;
use crate::model::grouped;
use crate::model::lemma_grouped_is_filed_all;
use crate::model::merged;
use crate::model::model_wf;
use crate::model::of_key;
use crate::model::oldest;
use crate::model::queue_of;
use crate::model::taken;
use crate::model::taken_times;
use crate::model::well_filed;
use crate::model::Queues;
use core::any::TypeId;
use vstd::prelude::*;

verus! {

/// Filing a value lengthens the queue of its own type by that value and
/// leaves every other queue as it is.
pub proof fn lemma_filed_queue(m: Queues, e: Erased, key: TypeId)
    ensures
        queue_of(filed(m, e), key) == if erased_key(e) == key {
            queue_of(m, key).push(e)
        } else {
            queue_of(m, key)
        },
{
}

/// After any run of insertions the queue of a type is what it was, followed
/// by the inserted values of that type in the order of their insertion. Values
/// of other types inserted in between make no difference.
pub proof fn lemma_filed_all_queue(m: Queues, items: Seq<Erased>, key: TypeId)
    ensures
        queue_of(filed_all(m, items), key) == queue_of(m, key) + of_key(items, key),
    decreases items.len(),
{
    if items.len() == 0 {
        assert(of_key(items, key) =~= Seq::empty()) by {
            items.lemma_filter_len(|x: Erased| erased_key(x) == key);
        }
        assert(queue_of(m, key) + Seq::<Erased>::empty() =~= queue_of(m, key));
    } else {
        let front = items.drop_last();
        let e = items.last();
        lemma_filed_all_queue(m, front, key);
        lemma_filed_queue(filed_all(m, front), e, key);
        front.lemma_filter_push(e, |x: Erased| erased_key(x) == key);
        assert(front.push(e) =~= items);
        if erased_key(e) == key {
            assert((queue_of(m, key) + of_key(front, key)).push(e) =~= queue_of(m, key) + of_key(
                front,
                key,
            ).push(e));
        }
    }
}

/// Taking from under a key shortens that key's queue from the front and
/// leaves every other queue as it is.
pub proof fn lemma_taken_times_queue(m: Queues, key: TypeId, count: nat, other: TypeId)
    requires
        count <= queue_of(m, key).len(),
    ensures
        queue_of(taken_times(m, key, count), key) == queue_of(m, key).skip(count as int),
        other != key ==> queue_of(taken_times(m, key, count), other) == queue_of(m, other),
        other != key ==> taken_times(m, key, count).contains_key(other) == m.contains_key(other),
    decreases count,
{
    if count == 0 {
        assert(queue_of(m, key).skip(0) =~= queue_of(m, key));
    } else {
        let less = (count - 1) as nat;
        lemma_taken_times_queue(m, key, less, other);
        let mid = taken_times(m, key, less);
        let q = queue_of(m, key);
        assert(queue_of(mid, key) == q.skip(less as int));
        if queue_of(mid, key).len() > 1 {
            assert(q.skip(less as int).drop_first() =~= q.skip(count as int));
        } else {
            assert(q.skip(count as int) =~= Seq::empty());
        }
    }
}

/// First in, first out within each type: after any run of insertions, of
/// whatever types in whatever order, the values of one type leave in the
/// order in which they came.
pub proof fn lemma_fifo_per_type(m: Queues, items: Seq<Erased>, key: TypeId, count: nat)
    requires
        count < (queue_of(m, key) + of_key(items, key)).len(),
    ensures
        oldest(taken_times(filed_all(m, items), key, count), key) == Some(
            (queue_of(m, key) + of_key(items, key))[count as int],
        ),
{
    lemma_filed_all_queue(m, items, key);
    lemma_taken_times_queue(filed_all(m, items), key, count, key);
}

/// One change of a container: a value is inserted, or the oldest value of a
/// type is taken out.
pub enum Step {
    File(Erased),
    Take(TypeId),
}

/// `m` after one step.
pub open spec fn after_step(m: Queues, step: Step) -> Queues {
    match step {
        Step::File(e) => filed(m, e),
        Step::Take(key) => taken(m, key),
    }
}

/// `m` after a run of steps, first to last.
pub open spec fn after_run(m: Queues, steps: Seq<Step>) -> Queues
    decreases steps.len(),
{
    if steps.len() == 0 {
        m
    } else {
        after_step(after_run(m, steps.drop_last()), steps.last())
    }
}

/// The values with the key `key` that a run of steps inserts, in the order of
/// their insertion.
pub open spec fn came(steps: Seq<Step>, key: TypeId) -> Seq<Erased>
    decreases steps.len(),
{
    if steps.len() == 0 {
        Seq::empty()
    } else {
        let before = came(steps.drop_last(), key);
        match steps.last() {
            Step::File(e) => if erased_key(e) == key {
                before.push(e)
            } else {
                before
            },
            Step::Take(_) => before,
        }
    }
}

/// The values that a run of steps on `m` takes out from under `key`, in the
/// order in which they leave.
pub open spec fn left(m: Queues, steps: Seq<Step>, key: TypeId) -> Seq<Erased>
    decreases steps.len(),
{
    if steps.len() == 0 {
        Seq::empty()
    } else {
        let before = left(m, steps.drop_last(), key);
        match steps.last() {
            Step::File(_) => before,
            Step::Take(k) => match oldest(after_run(m, steps.drop_last()), key) {
                Some(e) => if k == key {
                    before.push(e)
                } else {
                    before
                },
                None => before,
            },
        }
    }
}

/// First in, first out, whatever is done: after any run of insertions and
/// removals, of whatever types in whatever order, the values of a type that
/// have left, followed by those that still wait, are the values of that type
/// that were stored at first, followed by those that came, each in its order.
pub proof fn lemma_fifo_any_run(m: Queues, steps: Seq<Step>, key: TypeId)
    ensures
        left(m, steps, key) + queue_of(after_run(m, steps), key) == queue_of(m, key) + came(
            steps,
            key,
        ),
    decreases steps.len(),
{
    if steps.len() == 0 {
        assert(Seq::<Erased>::empty() + queue_of(m, key) =~= queue_of(m, key) + Seq::<
            Erased,
        >::empty());
    } else {
        let front = steps.drop_last();
        let mid = after_run(m, front);
        let gone = left(m, front, key);
        let waiting = queue_of(mid, key);
        lemma_fifo_any_run(m, front, key);
        match steps.last() {
            Step::File(e) => {
                if erased_key(e) == key {
                    assert(gone + waiting.push(e) =~= (gone + waiting).push(e));
                    assert((queue_of(m, key) + came(front, key)).push(e) =~= queue_of(m, key)
                        + came(front, key).push(e));
                }
            },
            Step::Take(k) => {
                if k == key {
                    if waiting.len() > 0 {
                        assert(queue_of(taken(mid, key), key) =~= waiting.drop_first());
                        assert(gone.push(waiting[0]) + waiting.drop_first() =~= gone + waiting);
                    } else {
                        assert(queue_of(taken(mid, key), key) =~= waiting);
                    }
                }
            },
        }
    }
}

/// Batch grouping: from a container built of a mixed batch, the values of one
/// type leave in the order that they have in the batch, and after the last of
/// them nothing of that type is left.
pub proof fn lemma_batch_grouping(items: Seq<Erased>, key: TypeId, count: nat)
    ensures
        queue_of(grouped(items), key) == of_key(items, key),
        count < of_key(items, key).len() ==> oldest(taken_times(grouped(items), key, count), key)
            == Some(of_key(items, key)[count as int]),
        count == of_key(items, key).len() ==> oldest(taken_times(grouped(items), key, count), key)
            is None,
{
    lemma_grouped_is_filed_all(items);
    lemma_filed_all_queue(Map::empty(), items, key);
    assert(Seq::<Erased>::empty() + of_key(items, key) =~= of_key(items, key));
    if count <= of_key(items, key).len() {
        lemma_taken_times_queue(grouped(items), key, count, key);
    }
}

/// The queues of the pairs that name `key`, one after the other in the order
/// of the pairs.
pub open spec fn queues_under(pairs: Seq<(TypeId, Seq<Erased>)>, key: TypeId) -> Seq<Erased>
    decreases pairs.len(),
{
    if pairs.len() == 0 {
        Seq::empty()
    } else if pairs.last().0 == key {
        queues_under(pairs.drop_last(), key) + pairs.last().1
    } else {
        queues_under(pairs.drop_last(), key)
    }
}

/// Every value of every pair has the key that its pair names as the key of its
/// runtime type.
pub open spec fn rightly_keyed(pairs: Seq<(TypeId, Seq<Erased>)>) -> bool {
    forall|i: int, j: int|
        0 <= i < pairs.len() && 0 <= j < pairs[i].1.len() ==> erased_key(
            #[trigger] pairs[i].1[j],
        ) == pairs[i].0
}

/// Of a queue whose values all answer for one key, the values with the key
/// `key` are all of them or none.
pub proof fn lemma_of_key_uniform(queue: Seq<Erased>, named: TypeId, key: TypeId)
    requires
        forall|j: int| 0 <= j < queue.len() ==> erased_key(#[trigger] queue[j]) == named,
    ensures
        of_key(queue, key) == if named == key {
            queue
        } else {
            Seq::empty()
        },
    decreases queue.len(),
{
    if queue.len() == 0 {
        assert(of_key(queue, key) =~= Seq::empty()) by {
            queue.lemma_filter_len(|x: Erased| erased_key(x) == key);
        }
        assert(queue =~= Seq::empty());
    } else {
        let front = queue.drop_last();
        lemma_of_key_uniform(front, named, key);
        front.lemma_filter_push(queue.last(), |x: Erased| erased_key(x) == key);
        assert(front.push(queue.last()) =~= queue);
    }
}

/// Construction from pairs groups and drops nothing: where every value lies
/// in a queue of its own type, the queue of a type is the queues of all the
/// pairs of that type, one after the other in the order of the pairs.
pub proof fn lemma_pairs_grouping(pairs: Seq<(TypeId, Seq<Erased>)>, key: TypeId)
    requires
        rightly_keyed(pairs),
    ensures
        queue_of(grouped(flat(pairs)), key) == queues_under(pairs, key),
    decreases pairs.len(),
{
    lemma_batch_grouping(flat(pairs), key, 0);
    if pairs.len() > 0 {
        let front = pairs.drop_last();
        let last = pairs.last();
        assert(rightly_keyed(front)) by {
            assert forall|i: int, j: int|
                0 <= i < front.len() && 0 <= j < front[i].1.len() implies erased_key(
                #[trigger] front[i].1[j],
            ) == front[i].0 by {
                assert(front[i] == pairs[i]);
            }
        }
        lemma_pairs_grouping(front, key);
        lemma_batch_grouping(flat(front), key, 0);
        assert forall|j: int| 0 <= j < last.1.len() implies erased_key(#[trigger] last.1[j])
            == last.0 by {
            assert(pairs[pairs.len() - 1] == last);
        }
        lemma_of_key_uniform(last.1, last.0, key);
        Seq::filter_distributes_over_add(flat(front), last.1, |x: Erased| erased_key(x) == key);
        if last.0 != key {
            assert(of_key(flat(front), key) + Seq::<Erased>::empty() =~= of_key(flat(front), key));
        }
    }
}

/// Exhaustion: once every value of a type has been taken out, the type is no
/// longer stored; taking once more gives nothing and changes nothing; and the
/// queues of the other types are what they were all along.
pub proof fn lemma_exhaustion(m: Queues, key: TypeId, other: TypeId)
    requires
        model_wf(m),
    ensures
        ({
            let rest = taken_times(m, key, queue_of(m, key).len());
            &&& !rest.contains_key(key)
            &&& oldest(rest, key) is None
            &&& taken(rest, key) == rest
            &&& other != key ==> rest.contains_key(other) == m.contains_key(other) && queue_of(
                rest,
                other,
            ) == queue_of(m, other)
        }),
{
    let count = queue_of(m, key).len();
    let rest = taken_times(m, key, count);
    lemma_taken_times_queue(m, key, count, other);
    if count == 0 {
        if m.contains_key(key) {
            assert(well_filed(key, m[key]));
        }
    } else {
        let less = (count - 1) as nat;
        lemma_taken_times_queue(m, key, less, other);
        let mid = taken_times(m, key, less);
        assert(queue_of(mid, key).len() == 1);
    }
    assert(taken(rest, key) =~= rest);
}

/// Type isolation: inserting any number of values, none of them of the type
/// with the key `other`, changes neither whether that type is stored, nor its
/// queue, nor the value that would leave next.
pub proof fn lemma_type_isolation(m: Queues, items: Seq<Erased>, other: TypeId)
    requires
        forall|i: int| 0 <= i < items.len() ==> erased_key(#[trigger] items[i]) != other,
    ensures
        filed_all(m, items).contains_key(other) == m.contains_key(other),
        queue_of(filed_all(m, items), other) == queue_of(m, other),
        filed_all(m, items).contains_key(other) ==> filed_all(m, items)[other] == m[other],
        oldest(filed_all(m, items), other) == oldest(m, other),
    decreases items.len(),
{
    if items.len() > 0 {
        lemma_type_isolation(m, items.drop_last(), other);
    }
}

/// Round trip: a value inserted while no value of its type is stored is the
/// value that leaves next under its type, and taking it out leaves the
/// container as it was before.
pub proof fn lemma_round_trip(m: Queues, e: Erased)
    requires
        !m.contains_key(erased_key(e)),
    ensures
        oldest(filed(m, e), erased_key(e)) == Some(e),
        taken(filed(m, e), erased_key(e)) == m,
{
    assert(taken(filed(m, e), erased_key(e)) =~= m);
}

/// With older values of its type stored, an inserted value waits its turn: it
/// leaves after as many removals as there were values of its type before it.
pub proof fn lemma_round_trip_in_turn(m: Queues, e: Erased)
    ensures
        oldest(
            taken_times(filed(m, e), erased_key(e), queue_of(m, erased_key(e)).len()),
            erased_key(e),
        ) == Some(e),
{
    let key = erased_key(e);
    let q = queue_of(m, key);
    lemma_taken_times_queue(filed(m, e), key, q.len(), key);
    assert(q.push(e).skip(q.len() as int)[0] == e);
}

/// No empty queue is ever at rest: a type is stored exactly when its queue
/// holds a value, so the count of stored types counts no type without one.
pub proof fn lemma_no_empty_queue(dfb: Dfb, key: TypeId)
    requires
        dfb.wf(),
    ensures
        dfb@.contains_key(key) <==> queue_of(dfb@, key).len() > 0,
        dfb@.contains_key(key) ==> well_filed(key, dfb@[key]),
        dfb@.dom().finite(),
{
    dfb.lemma_wf();
    if dfb@.contains_key(key) {
        assert(well_filed(key, dfb@[key]));
    }
}

/// Filing keeps a model well-formed.
pub proof fn lemma_filed_wf(m: Queues, e: Erased)
    requires
        model_wf(m),
    ensures
        model_wf(filed(m, e)),
{
    let key = erased_key(e);
    let after = filed(m, e);
    assert forall|k: TypeId| #[trigger] after.contains_key(k) implies well_filed(k, after[k]) by {
        if k != key {
            assert(m.contains_key(k));
        } else if m.contains_key(key) {
            assert(well_filed(key, m[key]));
        }
    }
}

/// Taking keeps a model well-formed.
pub proof fn lemma_taken_wf(m: Queues, key: TypeId)
    requires
        model_wf(m),
    ensures
        model_wf(taken(m, key)),
{
    let after = taken(m, key);
    assert forall|k: TypeId| #[trigger] after.contains_key(k) implies well_filed(k, after[k]) by {
        assert(m.contains_key(k));
        assert(well_filed(k, m[k]));
        if k == key {
            let q = m[key];
            assert forall|i: int| 0 <= i < q.drop_first().len() implies erased_key(
                #[trigger] q.drop_first()[i],
            ) == key by {
                assert(q.drop_first()[i] == q[i + 1]);
            }
        }
    }
}

/// An offered pair keeps a model well-formed, adopted or not.
pub proof fn lemma_adopted_wf(m: Queues, key: TypeId, queue: Seq<Erased>)
    requires
        model_wf(m),
    ensures
        model_wf(adopted(m, key, queue)),
{
    let after = adopted(m, key, queue);
    assert forall|k: TypeId| #[trigger] after.contains_key(k) implies well_filed(k, after[k]) by {
        if k != key {
            assert(m.contains_key(k));
        } else if !well_filed(key, queue) {
            assert(m.contains_key(k));
        }
    }
}

/// The structural invariant, whatever is done: after any run of insertions
/// and removals no type is left with an empty queue, and every value lies
/// under the key of its runtime type.
pub proof fn lemma_run_wf(m: Queues, steps: Seq<Step>)
    requires
        model_wf(m),
    ensures
        model_wf(after_run(m, steps)),
    decreases steps.len(),
{
    if steps.len() > 0 {
        let mid = after_run(m, steps.drop_last());
        lemma_run_wf(m, steps.drop_last());
        match steps.last() {
            Step::File(e) => lemma_filed_wf(mid, e),
            Step::Take(key) => lemma_taken_wf(mid, key),
        }
    }
}

/// Filing one by one keeps a model well-formed.
pub proof fn lemma_filed_all_wf(m: Queues, items: Seq<Erased>)
    requires
        model_wf(m),
    ensures
        model_wf(filed_all(m, items)),
    decreases items.len(),
{
    if items.len() > 0 {
        lemma_filed_all_wf(m, items.drop_last());
        lemma_filed_wf(filed_all(m, items.drop_last()), items.last());
    }
}

/// What grouping gives is well-formed.
pub proof fn lemma_grouped_wf(items: Seq<Erased>)
    ensures
        model_wf(grouped(items)),
{
    lemma_grouped_is_filed_all(items);
    lemma_filed_all_wf(Map::empty(), items);
}

/// Offering pairs one by one keeps a model well-formed.
pub proof fn lemma_merged_wf(m: Queues, pairs: Seq<(TypeId, Seq<Erased>)>)
    requires
        model_wf(m),
    ensures
        model_wf(merged(m, pairs)),
    decreases pairs.len(),
{
    if pairs.len() > 0 {
        lemma_merged_wf(m, pairs.drop_last());
        lemma_adopted_wf(merged(m, pairs.drop_last()), pairs.last().0, pairs.last().1);
    }
}

/// Merging leaves alone what it is not offered: a type of which no pair is
/// offered keeps its queue, or stays absent.
pub proof fn lemma_merged_untouched(m: Queues, pairs: Seq<(TypeId, Seq<Erased>)>, key: TypeId)
    requires
        forall|i: int| 0 <= i < pairs.len() ==> (#[trigger] pairs[i]).0 != key,
    ensures
        merged(m, pairs).contains_key(key) == m.contains_key(key),
        queue_of(merged(m, pairs), key) == queue_of(m, key),
    decreases pairs.len(),
{
    if pairs.len() > 0 {
        lemma_merged_untouched(m, pairs.drop_last(), key);
        assert(pairs.last().0 != key);
    }
}

/// Merging adopts whole queues, and of two offered for one type the later: a
/// queue that may rest under its key is the queue of that type afterwards,
/// unless a later pair replaces it.
pub proof fn lemma_merged_adopts(m: Queues, pairs: Seq<(TypeId, Seq<Erased>)>, at: int)
    requires
        0 <= at < pairs.len(),
        well_filed(pairs[at].0, pairs[at].1),
        forall|i: int|
            at < i < pairs.len() ==> (#[trigger] pairs[i]).0 != pairs[at].0 || !well_filed(
                pairs[i].0,
                pairs[i].1,
            ),
    ensures
        merged(m, pairs).contains_key(pairs[at].0),
        merged(m, pairs)[pairs[at].0] == pairs[at].1,
    decreases pairs.len(),
{
    if at < pairs.len() - 1 {
        let front = pairs.drop_last();
        assert(front[at] == pairs[at]);
        assert forall|i: int| at < i < front.len() implies (#[trigger] front[i]).0 != front[at].0
            || !well_filed(front[i].0, front[i].1) by {
            assert(front[i] == pairs[i]);
        }
        lemma_merged_adopts(m, front, at);
        assert(pairs.last() == pairs[pairs.len() - 1]);
    }
}

} // verus!
