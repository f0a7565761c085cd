//! The container itself.

use crate::erased::erased_key;
use crate::erased::same_key;
use crate::erased::Erased;
use crate::model::filed;
use crate::model::model_wf;
use crate::model::oldest;
use crate::model::taken;
use crate::model::views_of;
use crate::model::well_filed;
use crate::model::Queues;
use crate::table::keys_of;
use crate::table::lemma_absent;
use crate::table::lemma_count;
use crate::table::lemma_entry;
use crate::table::lemma_model_wf;
use crate::table::lemma_push;
use crate::table::lemma_remove;
use crate::table::lemma_update;
use crate::table::table_map;
use crate::table::table_wf;
use crate::table::Table;
use core::any::TypeId;
use std::collections::VecDeque;
use vstd::prelude::*;

mod bulk;
mod typed;
mod walk;

verus! {

/// A container of values of any type, filed by the key of their runtime type.
/// Within one type the values leave in the order in which they came.
///
/// Its view is the map from each stored type's key to the queue of the values
/// of that type, oldest first. A type whose last value has left has no queue.
#[derive(Debug)]
pub struct Dfb {
    entries: Vec<(TypeId, VecDeque<Erased>)>,
}

impl View for Dfb {
    type V = Queues;

    closed spec fn view(&self) -> Queues {
        table_map(self.table())
    }
}

impl Dfb {
    /// The stored pairs, a key and its queue, in the order in which the
    /// container walks them. Which order that is, is not part of any contract.
    pub closed spec fn pairs(&self) -> Seq<(TypeId, VecDeque<Erased>)> {
        self.entries@
    }

    spec fn table(&self) -> Table {
        views_of(self.entries@)
    }

    /// The container is at rest: no key is stored twice, no queue is empty, and
    /// every value lies under the key of its own runtime type.
    pub closed spec fn wf(&self) -> bool {
        table_wf(self.table())
    }

    /// What well-formedness means for the view and for the pairs: the view is a
    /// well-formed model, and the pairs are its entries, each key once.
    pub proof fn lemma_wf(&self)
        requires
            self.wf(),
        ensures
            model_wf(self@),
            self@.dom().len() == self.pairs().len(),
            forall|i: int|
                0 <= i < self.pairs().len() ==> {
                    &&& self@.contains_key((#[trigger] self.pairs()[i]).0)
                    &&& self@[self.pairs()[i].0] == self.pairs()[i].1@
                },
            forall|i: int, j: int|
                0 <= i < j < self.pairs().len() ==> self.pairs()[i].0 != self.pairs()[j].0,
            forall|key: TypeId|
                self@.contains_key(key) ==> exists|i: int|
                    0 <= i < self.pairs().len() && (#[trigger] self.pairs()[i]).0 == key,
    {
        let t = self.table();
        lemma_model_wf(t);
        lemma_count(t);
        assert forall|i: int| 0 <= i < self.pairs().len() implies {
            &&& self@.contains_key((#[trigger] self.pairs()[i]).0)
            &&& self@[self.pairs()[i].0] == self.pairs()[i].1@
        } by {
            lemma_entry(t, i);
        }
        assert forall|i: int, j: int| 0 <= i < j < self.pairs().len() implies self.pairs()[i].0
            != self.pairs()[j].0 by {
            assert(keys_of(t)[i] == self.pairs()[i].0);
            assert(keys_of(t)[j] == self.pairs()[j].0);
        }
        assert forall|key: TypeId| self@.contains_key(key) implies exists|i: int|
            0 <= i < self.pairs().len() && (#[trigger] self.pairs()[i]).0 == key by {
            let i = keys_of(t).index_of(key);
            assert(0 <= i < t.len() && keys_of(t)[i] == key);
            assert(self.pairs()[i].0 == key);
        }
    }

    /// An empty container.
    pub fn new() -> (dfb: Dfb)
        ensures
            dfb.wf(),
            dfb@ == Map::<TypeId, Seq<Erased>>::empty(),
    {
        let dfb = Dfb { entries: Vec::new() };
        proof {
            assert(dfb.table() =~= Seq::empty());
            assert(dfb@ =~= Map::<TypeId, Seq<Erased>>::empty());
        }
        dfb
    }

    /// The number of types of which a value is stored; not the number of
    /// values.
    pub fn len(&self) -> (count: usize)
        requires
            self.wf(),
        ensures
            count == self@.dom().len(),
    {
        proof {
            lemma_count(self.table());
        }
        self.entries.len()
    }

    /// Whether nothing is stored.
    pub fn is_empty(&self) -> (empty: bool)
        requires
            self.wf(),
        ensures
            empty == (self@ == Map::<TypeId, Seq<Erased>>::empty()),
    {
        proof {
            lemma_count(self.table());
            if self.entries@.len() == 0 {
                assert(self@ =~= Map::<TypeId, Seq<Erased>>::empty());
            }
        }
        self.entries.len() == 0
    }

    /// Where the pair of `key` stands, if a value of that type is stored.
    fn position(&self, key: &TypeId) -> (at: Option<usize>)
        requires
            self.wf(),
        ensures
            match at {
                Some(i) => i < self.entries@.len() && self.entries@[i as int].0 == *key,
                None => !self@.contains_key(*key),
            },
    {
        let mut i: usize = 0;
        while i < self.entries.len()
            invariant
                i <= self.entries@.len(),
                forall|j: int| 0 <= j < i ==> (#[trigger] self.entries@[j]).0 != *key,
            decreases self.entries@.len() - i,
        {
            if same_key(&self.entries[i].0, key) {
                return Some(i);
            }
            i += 1;
        }
        proof {
            lemma_absent(self.table(), *key);
        }
        None
    }

    /// Whether a value of the type with the key `key` is stored.
    pub fn contains_key(&self, key: TypeId) -> (found: bool)
        requires
            self.wf(),
        ensures
            found == self@.contains_key(key),
    {
        match self.position(&key) {
            Some(i) => {
                proof {
                    lemma_entry(self.table(), i as int);
                }
                true
            },
            None => false,
        }
    }

    /// Files an erased value at the back of the queue of its runtime type. A
    /// type not stored so far gets a queue of its own.
    pub fn insert_dyn(&mut self, value: Erased)
        requires
            old(self).wf(),
        ensures
            final(self).wf(),
            final(self)@ == filed(old(self)@, value),
    {
        let key = value.key();
        let ghost before = self.table();
        proof {
            lemma_model_wf(before);
        }
        match self.position(&key) {
            Some(i) => {
                self.entries[i].1.push_back(value);
                proof {
                    let queue = before[i as int].1.push(value);
                    lemma_entry(before, i as int);
                    lemma_update(before, i as int, queue);
                    assert(self.table() =~= before.update(i as int, (key, queue)));
                    assert(well_filed(before[i as int].0, before[i as int].1));
                }
            },
            None => {
                let mut queue: VecDeque<Erased> = VecDeque::new();
                queue.push_back(value);
                self.entries.push((key, queue));
                proof {
                    lemma_push(before, key, seq![value]);
                    assert(self.table() =~= before.push((key, seq![value])));
                    assert(Seq::<Erased>::empty().push(value) =~= seq![value]);
                }
            },
        }
    }

    /// Takes the oldest value of the type with the key `key` out, if a value of
    /// that type is stored. A queue that this empties is given up with it.
    pub fn remove_dyn(&mut self, key: TypeId) -> (value: Option<Erased>)
        requires
            old(self).wf(),
        ensures
            final(self).wf(),
            value == oldest(old(self)@, key),
            final(self)@ == taken(old(self)@, key),
    {
        let ghost before = self.table();
        proof {
            lemma_model_wf(before);
        }
        match self.position(&key) {
            Some(i) => {
                proof {
                    lemma_entry(before, i as int);
                    assert(well_filed(before[i as int].0, before[i as int].1));
                }
                let value = self.entries[i].1.pop_front();
                if self.entries[i].1.len() == 0 {
                    self.entries.remove(i);
                    proof {
                        lemma_remove(before, i as int);
                        assert(self.table() =~= before.remove(i as int));
                    }
                } else {
                    proof {
                        let queue = before[i as int].1.drop_first();
                        lemma_update(before, i as int, queue);
                        assert(self.table() =~= before.update(i as int, (key, queue)));
                        assert forall|j: int| 0 <= j < queue.len() implies erased_key(
                            #[trigger] queue[j],
                        ) == key by {
                            assert(queue[j] == before[i as int].1[j + 1]);
                        }
                    }
                }
                value
            },
            None => {
                proof {
                    assert(taken(self@, key) =~= self@);
                }
                None
            },
        }
    }
}

} // verus!
