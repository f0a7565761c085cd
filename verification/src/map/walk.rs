//! Walking the stored pairs, emptying the container, and its room.

use crate::erased::Erased;
use crate::map::Dfb;
use core::any::TypeId;
use std::collections::VecDeque;
use vstd::prelude::*;

verus! {

/// `Vec::capacity`: the number of elements that the vector can hold without
/// reallocating, which is no less than the number that it holds. How much more
/// the allocator gave is not stated.
#[verifier::external_body]
fn room_of(list: &Vec<(TypeId, VecDeque<Erased>)>) -> (room: usize)
    ensures
        room >= list@.len(),
{
    list.capacity()
}

/// `Vec::shrink_to_fit`: the contents stay as they are.
#[verifier::external_body]
fn shrink(list: &mut Vec<(TypeId, VecDeque<Erased>)>)
    ensures
        final(list)@ == old(list)@,
{
    list.shrink_to_fit()
}

impl Dfb {
    /// An empty container, with room for `capacity` types where that much room
    /// can be had.
    pub fn with_capacity(capacity: usize) -> (dfb: Dfb)
        ensures
            dfb.wf(),
            dfb@ == Map::<TypeId, Seq<Erased>>::empty(),
    {
        let mut dfb = Dfb::new();
        dfb.reserve(capacity);
        dfb
    }

    /// For how many types the container has room before it must grow: for no
    /// fewer than are stored.
    pub fn capacity(&self) -> (room: usize)
        ensures
            room >= self.pairs().len(),
            self.wf() ==> room >= self@.dom().len(),
    {
        proof {
            if self.wf() {
                self.lemma_wf();
            }
        }
        room_of(&self.entries)
    }

    /// Makes room for `additional` types more, where that much room can be
    /// had. What is stored stays as it is.
    pub fn reserve(&mut self, additional: usize)
        requires
            old(self).wf(),
        ensures
            final(self).wf(),
            final(self)@ == old(self)@,
            final(self).pairs() == old(self).pairs(),
    {
        let _ = self.entries.try_reserve(additional);
    }

    /// Gives up room that is not used. What is stored stays as it is.
    pub fn shrink_to_fit(&mut self)
        requires
            old(self).wf(),
        ensures
            final(self).wf(),
            final(self)@ == old(self)@,
            final(self).pairs() == old(self).pairs(),
    {
        shrink(&mut self.entries);
    }

    /// Drops everything that is stored.
    pub fn clear(&mut self)
        ensures
            final(self).wf(),
            final(self)@ == Map::<TypeId, Seq<Erased>>::empty(),
    {
        self.entries.clear();
        proof {
            assert(self.table() =~= Seq::empty());
            assert(self@ =~= Map::<TypeId, Seq<Erased>>::empty());
        }
    }

    /// The keys of the stored types, each once.
    pub fn keys(&self) -> (keys: Vec<TypeId>)
        ensures
            keys@.len() == self.pairs().len(),
            forall|i: int| 0 <= i < keys@.len() ==> keys@[i] == self.pairs()[i].0,
    {
        let mut keys: Vec<TypeId> = Vec::new();
        let mut i: usize = 0;
        while i < self.entries.len()
            invariant
                i <= self.entries@.len(),
                keys@.len() == i,
                forall|j: int| 0 <= j < i ==> keys@[j] == self.entries@[j].0,
            decreases self.entries@.len() - i,
        {
            keys.push(self.entries[i].0);
            i += 1;
        }
        keys
    }

    /// The queues of the stored types, each by reference.
    pub fn values(&self) -> (queues: Vec<&VecDeque<Erased>>)
        ensures
            queues@.len() == self.pairs().len(),
            forall|i: int| 0 <= i < queues@.len() ==> *queues@[i] == self.pairs()[i].1,
    {
        let mut queues: Vec<&VecDeque<Erased>> = Vec::new();
        let mut i: usize = 0;
        while i < self.entries.len()
            invariant
                i <= self.entries@.len(),
                queues@.len() == i,
                forall|j: int| 0 <= j < i ==> *queues@[j] == self.entries@[j].1,
            decreases self.entries@.len() - i,
        {
            queues.push(&self.entries[i].1);
            i += 1;
        }
        queues
    }

    /// The stored pairs, each key with a reference to its queue.
    pub fn iter(&self) -> (pairs: Vec<(TypeId, &VecDeque<Erased>)>)
        ensures
            pairs@.len() == self.pairs().len(),
            forall|i: int|
                0 <= i < pairs@.len() ==> pairs@[i].0 == self.pairs()[i].0 && *pairs@[i].1
                    == self.pairs()[i].1,
    {
        let mut pairs: Vec<(TypeId, &VecDeque<Erased>)> = Vec::new();
        let mut i: usize = 0;
        while i < self.entries.len()
            invariant
                i <= self.entries@.len(),
                pairs@.len() == i,
                forall|j: int|
                    0 <= j < i ==> pairs@[j].0 == self.entries@[j].0 && *pairs@[j].1
                        == self.entries@[j].1,
            decreases self.entries@.len() - i,
        {
            pairs.push((self.entries[i].0, &self.entries[i].1));
            i += 1;
        }
        pairs
    }

    /// Hands all stored pairs out and leaves the container empty.
    pub fn drain(&mut self) -> (pairs: Vec<(TypeId, VecDeque<Erased>)>)
        ensures
            pairs@ == old(self).pairs(),
            final(self).wf(),
            final(self)@ == Map::<TypeId, Seq<Erased>>::empty(),
    {
        let mut pairs: Vec<(TypeId, VecDeque<Erased>)> = Vec::new();
        core::mem::swap(&mut self.entries, &mut pairs);
        proof {
            assert(self.table() =~= Seq::empty());
            assert(self@ =~= Map::<TypeId, Seq<Erased>>::empty());
        }
        pairs
    }

    /// Gives the container up for its pairs.
    pub fn into_iter(self) -> (pairs: Vec<(TypeId, VecDeque<Erased>)>)
        ensures
            pairs@ == self.pairs(),
    {
        self.entries
    }
}

impl Default for Dfb {
    /// An empty container.
    fn default() -> (dfb: Dfb)
        ensures
            dfb.wf(),
            dfb@ == Map::<TypeId, Seq<Erased>>::empty(),
    {
        Dfb::new()
    }
}

} // verus!
