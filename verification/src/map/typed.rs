//! The container as its users see it: by static type.
//!
//! What key a type has is for the running program to say. The functions that
//! take a [`Kind<T>`], the key of `T` held as a value, say exactly what they do
//! for that key. The functions that take the type alone ask for its key and
//! leave the rest to those; their contracts hold whichever key it is.

use crate::erased::erased_key;
use crate::erased::Erased;
use crate::erased::Kind;
use crate::handle::DynBox;
use crate::map::Dfb;
use crate::model::filed;
use crate::model::lent;
use crate::model::rewritten_at;
use crate::model::took;
use crate::model::views_of;
use crate::model::well_filed;
use crate::table::lemma_entry;
use crate::table::lemma_update;
use crate::table::table_map;
use crate::table::table_wf;
use core::any::TypeId;
use std::collections::VecDeque;
use vstd::prelude::*;

verus! {

/// `VecDeque::get_mut`: the slot at `index`, if the queue is that long. What
/// the caller leaves in the slot is what the queue holds there afterwards;
/// nothing else in the queue changes.
#[verifier::external_body]
fn slot_mut(queue: &mut VecDeque<Erased>, index: usize) -> (r: Option<&mut Erased>)
    ensures
        match r {
            Some(slot) => {
                &&& index < old(queue)@.len()
                &&& *slot == old(queue)@[index as int]
                &&& final(queue)@ == old(queue)@.update(index as int, *final(slot))
            },
            None => index >= old(queue)@.len() && final(queue)@ == old(queue)@,
        },
{
    queue.get_mut(index)
}

impl Dfb {
    /// Whether a value of type `T` is stored.
    pub fn contains<T: 'static>(&self) -> (found: bool)
        requires
            self.wf(),
        ensures
            exists|key: TypeId| found == self@.contains_key(key),
    {
        let kind = Kind::<T>::of();
        self.contains_key(kind.key())
    }

    /// Stores `value` behind the values of its type that are stored already.
    pub fn insert<T: 'static>(&mut self, value: T)
        requires
            old(self).wf(),
        ensures
            final(self).wf(),
            exists|e: Erased| final(self)@ == filed(old(self)@, e),
    {
        let e = Erased::new(value);
        self.insert_dyn(e);
    }

    /// The queue of the type with the key `key`, if a value of that type is
    /// stored.
    pub fn get_dyn(&self, key: TypeId) -> (queue: Option<&VecDeque<Erased>>)
        requires
            self.wf(),
        ensures
            match queue {
                Some(q) => self@.contains_key(key) && q@ == self@[key],
                None => !self@.contains_key(key),
            },
    {
        match self.position(&key) {
            Some(i) => {
                proof {
                    lemma_entry(self.table(), i as int);
                }
                Some(&self.entries[i].1)
            },
            None => None,
        }
    }

    /// The queue of the type with the key `key`, for a caller who knows that a
    /// value of that type is stored.
    pub fn index(&self, key: TypeId) -> (queue: &VecDeque<Erased>)
        requires
            self.wf(),
            self@.contains_key(key),
        ensures
            queue@ == self@[key],
    {
        let i = self.position(&key).unwrap();
        proof {
            lemma_entry(self.table(), i as int);
        }
        &self.entries[i].1
    }

    /// The stored values of the type whose key `kind` holds, oldest first, each
    /// by reference; `None` where no value of that type is stored.
    pub fn get_of<T: 'static>(&self, kind: &Kind<T>) -> (values: Option<Vec<&T>>)
        requires
            self.wf(),
        ensures
            values is Some <==> self@.contains_key(kind@),
            values matches Some(list) ==> list@.len() == self@[kind@].len(),
    {
        proof {
            self.lemma_wf();
        }
        match self.get_dyn(kind.key()) {
            Some(queue) => {
                let mut list: Vec<&T> = Vec::new();
                let mut i: usize = 0;
                while i < queue.len()
                    invariant
                        i <= queue@.len(),
                        list@.len() == i,
                        well_filed(kind@, queue@),
                    decreases queue@.len() - i,
                {
                    match kind.downcast_ref(&queue[i]) {
                        Some(value) => list.push(value),
                        None => {
                            return None;
                        },
                    }
                    i += 1;
                }
                Some(list)
            },
            None => None,
        }
    }

    /// The stored values of type `T`, oldest first, each by reference; `None`
    /// where no value of that type is stored. There is one key, the key of
    /// `T`, for which this does what [`Dfb::get_of`] does.
    pub fn get<T: 'static>(&self) -> (values: Option<Vec<&T>>)
        requires
            self.wf(),
        ensures
            exists|key: TypeId|
                (values is Some <==> #[trigger] self@.contains_key(key)) && (values matches Some(
                    list,
                ) ==> list@.len() == self@[key].len()),
            self@ == Map::<TypeId, Seq<Erased>>::empty() ==> values is None,
    {
        let kind = Kind::<T>::of();
        let values = self.get_of(&kind);
        proof {
            assert((values is Some <==> self@.contains_key(kind@)) && (values matches Some(list)
                ==> list@.len() == self@[kind@].len()));
        }
        values
    }

    /// Takes the oldest stored value of the type whose key `kind` holds out, if
    /// there is one. A queue that this empties is given up with it.
    pub fn remove_of<T: 'static>(&mut self, kind: &Kind<T>) -> (value: Option<T>)
        requires
            old(self).wf(),
        ensures
            final(self).wf(),
            took(old(self)@, final(self)@, kind@, value is Some),
    {
        proof {
            self.lemma_wf();
        }
        match self.remove_dyn(kind.key()) {
            Some(front) => {
                proof {
                    assert(well_filed(kind@, old(self)@[kind@]));
                }
                match DynBox::restore_of(front, kind) {
                    Ok(handle) => Some(*handle.unwrap()),
                    Err(_) => None,
                }
            },
            None => None,
        }
    }

    /// Takes the oldest stored value of type `T` out, if there is one. A queue
    /// that this empties is given up with it. There is one key, the key of
    /// `T`, for which this does what [`Dfb::remove_of`] does.
    pub fn remove<T: 'static>(&mut self) -> (value: Option<T>)
        requires
            old(self).wf(),
        ensures
            final(self).wf(),
            exists|key: TypeId| #[trigger] took(old(self)@, final(self)@, key, value is Some),
            value is None ==> final(self)@ == old(self)@,
            old(self)@ == Map::<TypeId, Seq<Erased>>::empty() ==> value is None,
    {
        let kind = Kind::<T>::of();
        let value = self.remove_of(&kind);
        proof {
            assert(took(old(self)@, self@, kind@, value is Some));
            if value is None {
                assert(self@ =~= old(self)@);
            }
        }
        value
    }

    /// The stored value of the type whose key `kind` holds that is `index`
    /// places behind the oldest, to be changed in place. Nothing is added,
    /// taken out or moved: whatever the caller writes, the container differs
    /// from what it was in that one value at most, and the value is of the
    /// type that it was.
    pub fn get_mut_of<T: 'static>(&mut self, kind: &Kind<T>, index: usize) -> (value: Option<
        &mut T,
    >)
        requires
            old(self).wf(),
        ensures
            final(self).wf(),
            final(self)@.dom() == old(self)@.dom(),
            lent(old(self)@, final(self)@, kind@, index as int, value is Some),
    {
        let key = kind.key();
        let at = self.position(&key);
        if at.is_none() {
            return None;
        }
        let i = at.unwrap();
        proof {
            lemma_entry(self.table(), i as int);
            assert(well_filed(self.table()[i as int].0, self.table()[i as int].1));
            lemma_slot_rewritten(self.entries@, i as int, index as int);
        }
        match slot_mut(&mut self.entries[i].1, index) {
            None => None,
            Some(slot) => kind.downcast_mut(slot),
        }
    }

    /// The stored value of type `T` that is `index` places behind the oldest,
    /// to be changed in place. Nothing is added, taken out or moved: whatever
    /// the caller writes, the container differs from what it was in that one
    /// value at most, and the value is of the type that it was. There is one
    /// key, the key of `T`, for which this does what [`Dfb::get_mut_of`] does.
    pub fn get_mut<T: 'static>(&mut self, index: usize) -> (value: Option<&mut T>)
        requires
            old(self).wf(),
        ensures
            final(self).wf(),
            final(self)@.dom() == old(self)@.dom(),
            exists|key: TypeId|
                #[trigger] lent(old(self)@, final(self)@, key, index as int, value is Some),
            value is None ==> final(self)@ == old(self)@,
    {
        let kind = Kind::<T>::of();
        self.get_mut_of(&kind, index)
    }
}

/// Two queues hold the same values.
spec fn same_values(before: Seq<Erased>, after: Seq<Erased>) -> bool {
    &&& after.len() == before.len()
    &&& forall|k: int| 0 <= k < before.len() ==> #[trigger] after[k] == before[k]
}

/// `after` is `before` but for the value at `index` in the queue of the pair
/// at `i`, which may have been rewritten by a value of the same runtime type.
spec fn slot_rewritten(
    before: Seq<(TypeId, VecDeque<Erased>)>,
    after: Seq<(TypeId, VecDeque<Erased>)>,
    i: int,
    index: int,
) -> bool {
    &&& after.len() == before.len()
    &&& forall|j: int| 0 <= j < before.len() && j != i ==> #[trigger] after[j] == before[j]
    &&& after[i].0 == before[i].0
    &&& after[i].1@.len() == before[i].1@.len()
    &&& forall|k: int|
        0 <= k < before[i].1@.len() && k != index ==> #[trigger] after[i].1@[k] == before[i].1@[k]
    &&& 0 <= index < before[i].1@.len() ==> erased_key(after[i].1@[index]) == erased_key(
        before[i].1@[index],
    )
}

/// What a rewritten slot means for the map that the list stands for.
proof fn lemma_slot_rewritten(before: Seq<(TypeId, VecDeque<Erased>)>, i: int, index: int)
    requires
        table_wf(views_of(before)),
        0 <= i < before.len(),
        0 <= index,
    ensures
        forall|after: Seq<(TypeId, VecDeque<Erased>)>|
            slot_rewritten(before, after, i, index) ==> {
                &&& table_wf(#[trigger] views_of(after))
                &&& table_map(views_of(after)).dom() == table_map(views_of(before)).dom()
                &&& index < before[i].1@.len() ==> rewritten_at(
                    table_map(views_of(before)),
                    table_map(views_of(after)),
                    before[i].0,
                    index,
                )
                &&& same_values(before[i].1@, after[i].1@) ==> table_map(views_of(after))
                    == table_map(views_of(before))
            },
{
    assert forall|after: Seq<(TypeId, VecDeque<Erased>)>|
        slot_rewritten(before, after, i, index) implies {
        &&& table_wf(#[trigger] views_of(after))
        &&& table_map(views_of(after)).dom() == table_map(views_of(before)).dom()
        &&& index < before[i].1@.len() ==> rewritten_at(
            table_map(views_of(before)),
            table_map(views_of(after)),
            before[i].0,
            index,
        )
        &&& same_values(before[i].1@, after[i].1@) ==> table_map(views_of(after)) == table_map(
            views_of(before),
        )
    } by {
        let t = views_of(before);
        let u = views_of(after);
        let queue = after[i].1@;
        assert(u =~= t.update(i, (t[i].0, queue)));
        lemma_update(t, i, queue);
        lemma_entry(t, i);
        lemma_entry(u, i);
        assert(well_filed(t[i].0, t[i].1));
        assert forall|k: int| 0 <= k < queue.len() implies erased_key(#[trigger] queue[k])
            == t[i].0 by {
            assert(erased_key(t[i].1[k]) == t[i].0);
        }
        assert forall|j: int| 0 <= j < u.len() implies well_filed((#[trigger] u[j]).0, u[j].1) by {
            if j != i {
                assert(well_filed(t[j].0, t[j].1));
            }
        }
        assert(table_map(u).dom() =~= table_map(t).dom());
        if index < before[i].1@.len() {
            assert(queue =~= t[i].1.update(index, queue[index]));
            assert(rewritten_at(table_map(t), table_map(u), t[i].0, index));
        }
        if same_values(before[i].1@, queue) {
            assert(queue =~= t[i].1);
            assert(table_map(u) =~= table_map(t));
        }
    }
}

} // verus!
