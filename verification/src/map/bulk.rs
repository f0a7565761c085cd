//! Building a container from many values at once, and merging pairs into it.

use crate::erased::erased_key;
use crate::erased::same_key;
use crate::erased::Erased;
use crate::map::Dfb;
use crate::model::adopted;
use crate::model::filed_all;
use crate::model::flat;
use crate::model::grouped;
use crate::model::lemma_grouped_add;
use crate::model::lemma_grouped_empty;
use crate::model::lemma_grouped_push;
use crate::model::merged;
use crate::model::views_of;
use crate::model::well_filed;
use crate::table::keys_of;
use crate::table::lemma_absent;
use crate::table::lemma_entry;
use crate::table::lemma_model_wf;
use crate::table::lemma_push;
use crate::table::lemma_update;
use crate::table::table_wf;
use core::any::TypeId;
use std::collections::VecDeque;
use vstd::prelude::*;

verus! {

/// `Vec::from` on an array: the same values in the same order.
#[verifier::external_body]
fn array_into_vec<const N: usize>(items: [Erased; N]) -> (list: Vec<Erased>)
    ensures
        list@ == items@,
{
    Vec::from(items)
}

/// Whether `queue` may rest under `key`.
fn may_rest(key: &TypeId, queue: &VecDeque<Erased>) -> (ok: bool)
    ensures
        ok == well_filed(*key, queue@),
{
    if queue.len() == 0 {
        return false;
    }
    let mut i: usize = 0;
    while i < queue.len()
        invariant
            i <= queue@.len(),
            forall|j: int| 0 <= j < i ==> erased_key(#[trigger] queue@[j]) == *key,
        decreases queue@.len() - i,
    {
        let found = queue[i].key();
        if !same_key(&found, key) {
            return false;
        }
        i += 1;
    }
    true
}

impl Dfb {
    /// A container of the values of an array, sorted into queues by runtime
    /// type. Values of one type keep the order that they have in `items`.
    pub fn from<const N: usize>(items: [Erased; N]) -> (dfb: Dfb)
        ensures
            dfb.wf(),
            dfb@ == grouped(items@),
    {
        Dfb::from_iter(array_into_vec(items))
    }

    /// A container of `items`, sorted into queues by runtime type. Values of
    /// one type keep the order that they have in `items`.
    pub fn from_iter(items: Vec<Erased>) -> (dfb: Dfb)
        ensures
            dfb.wf(),
            dfb@ == grouped(items@),
    {
        let mut dfb = Dfb::new();
        let ghost all = items@;
        proof {
            lemma_grouped_empty();
            assert(all.take(0) =~= Seq::empty());
        }
        for value in walk: items
            invariant
                dfb.wf(),
                walk.seq() == all,
                dfb@ == grouped(all.take(walk.index() as int)),
        {
            proof {
                lemma_grouped_push(all.take(walk.index() as int), value);
                assert(all.take(walk.index() as int).push(value) =~= all.take(
                    walk.index() as int + 1,
                ));
            }
            dfb.insert_dyn(value);
        }
        proof {
            assert(all.take(all.len() as int) =~= all);
        }
        dfb
    }

    /// Offers one pair to the container. A queue that may rest under `key`
    /// takes the place of the queue that is there, or becomes the queue of a
    /// type not stored so far; any other queue is dropped.
    fn adopt(&mut self, key: TypeId, queue: VecDeque<Erased>)
        requires
            old(self).wf(),
        ensures
            final(self).wf(),
            final(self)@ == adopted(old(self)@, key, queue@),
    {
        if !may_rest(&key, &queue) {
            return ;
        }
        let ghost before = self.table();
        match self.position(&key) {
            Some(i) => {
                self.entries[i].1 = queue;
                proof {
                    lemma_entry(before, i as int);
                    lemma_update(before, i as int, queue@);
                    assert(self.table() =~= before.update(i as int, (key, queue@)));
                }
            },
            None => {
                self.entries.push((key, queue));
                proof {
                    lemma_push(before, key, queue@);
                    assert(self.table() =~= before.push((key, queue@)));
                }
            },
        }
    }

    /// Merges `pairs` into the container, first to last. A pair whose queue may
    /// rest under its key replaces what is stored under that key; a pair with
    /// an empty queue, or with a value of another type in it, is dropped.
    pub fn extend(&mut self, pairs: Vec<(TypeId, VecDeque<Erased>)>)
        requires
            old(self).wf(),
        ensures
            final(self).wf(),
            final(self)@ == merged(old(self)@, views_of(pairs@)),
    {
        let ghost all = views_of(pairs@);
        let ghost start = self@;
        proof {
            assert(all.take(0) =~= Seq::empty());
        }
        for pair in walk: pairs
            invariant
                self.wf(),
                all == views_of(walk.seq()),
                self@ == merged(start, all.take(walk.index() as int)),
        {
            proof {
                let done = all.take(walk.index() as int);
                let next = all.take(walk.index() as int + 1);
                assert(next.drop_last() =~= done);
                assert(next.last() == (pair.0, pair.1@));
            }
            let (key, queue) = pair;
            self.adopt(key, queue);
        }
        proof {
            assert(all.take(all.len() as int) =~= all);
        }
    }

    /// Files the values of `queue` one by one, oldest first.
    fn file_all(&mut self, queue: VecDeque<Erased>)
        requires
            old(self).wf(),
        ensures
            final(self).wf(),
            final(self)@ == filed_all(old(self)@, queue@),
    {
        let mut queue = queue;
        let ghost all = queue@;
        let ghost start = self@;
        let ghost done: int = 0;
        proof {
            assert(all.take(0) =~= Seq::empty());
            assert(all.skip(0) =~= all);
        }
        while queue.len() > 0
            invariant
                self.wf(),
                0 <= done <= all.len(),
                queue@ == all.skip(done),
                self@ == filed_all(start, all.take(done)),
            decreases queue@.len(),
        {
            let front = queue.pop_front();
            proof {
                assert(all.take(done + 1).drop_last() =~= all.take(done));
                assert(all.take(done + 1).last() == all[done]);
                assert(all.skip(done).subrange(1, all.skip(done).len() as int) =~= all.skip(
                    done + 1,
                ));
                assert(all.skip(done)[0] == all[done]);
            }
            self.insert_dyn(front.unwrap());
            proof {
                done = done + 1;
            }
        }
        proof {
            assert(all.take(all.len() as int) =~= all);
        }
    }

    /// A container of all the values of `pairs`, sorted into queues by runtime
    /// type: none is dropped, and values of one type keep the order that they
    /// have in `pairs`, pair after pair and within each queue. A value is filed
    /// under the key of its own runtime type; the key that its pair names
    /// decides nothing.
    pub fn from_pairs(pairs: Vec<(TypeId, VecDeque<Erased>)>) -> (dfb: Dfb)
        ensures
            dfb.wf(),
            dfb@ == grouped(flat(views_of(pairs@))),
    {
        let mut dfb = Dfb::new();
        let ghost all = views_of(pairs@);
        proof {
            lemma_grouped_empty();
            assert(all.take(0) =~= Seq::empty());
        }
        for pair in walk: pairs
            invariant
                dfb.wf(),
                all == views_of(walk.seq()),
                dfb@ == grouped(flat(all.take(walk.index() as int))),
        {
            proof {
                let done = all.take(walk.index() as int);
                let next = all.take(walk.index() as int + 1);
                assert(next.drop_last() =~= done);
                assert(next.last() == (pair.0, pair.1@));
                lemma_grouped_add(flat(done), pair.1@);
            }
            dfb.file_all(pair.1);
        }
        proof {
            assert(all.take(all.len() as int) =~= all);
        }
        dfb
    }

    /// Keeps the pairs for which `keep` answers true and drops the others,
    /// each with its whole queue.
    pub fn retain<F: Fn(&TypeId, &VecDeque<Erased>) -> bool>(&mut self, keep: F)
        requires
            old(self).wf(),
            forall|i: int|
                0 <= i < old(self).pairs().len() ==> call_requires(
                    keep,
                    (&(#[trigger] old(self).pairs()[i]).0, &old(self).pairs()[i].1),
                ),
        ensures
            final(self).wf(),
            final(self)@.dom().subset_of(old(self)@.dom()),
            forall|i: int|
                0 <= i < old(self).pairs().len() ==> {
                    let pair = #[trigger] old(self).pairs()[i];
                    if final(self)@.contains_key(pair.0) {
                        final(self)@[pair.0] == pair.1@ && call_ensures(
                            keep,
                            (&pair.0, &pair.1),
                            true,
                        )
                    } else {
                        call_ensures(keep, (&pair.0, &pair.1), false)
                    }
                },
    {
        let mut all: Vec<(TypeId, VecDeque<Erased>)> = Vec::new();
        core::mem::swap(&mut self.entries, &mut all);
        let ghost before = views_of(all@);
        let ghost source: Seq<int> = Seq::empty();
        proof {
            assert(self.table() =~= Seq::empty());
        }
        for pair in walk: all
            invariant
                walk.seq() == old(self).pairs(),
                before == views_of(walk.seq()),
                table_wf(before),
                forall|i: int|
                    0 <= i < walk.seq().len() ==> call_requires(
                        keep,
                        (&(#[trigger] walk.seq()[i]).0, &walk.seq()[i].1),
                    ),
                self.wf(),
                source.len() == self.entries@.len(),
                forall|a: int|
                    0 <= a < source.len() ==> 0 <= #[trigger] source[a] < walk.index()
                        && self.entries@[a] == walk.seq()[source[a]],
                forall|j: int|
                    0 <= j < walk.index() ==> if source.contains(j) {
                        call_ensures(keep, (&(#[trigger] walk.seq()[j]).0, &walk.seq()[j].1), true)
                    } else {
                        call_ensures(keep, (&walk.seq()[j].0, &walk.seq()[j].1), false)
                    },
        {
            let ghost n = walk.index() as int;
            let ghost table = self.table();
            if keep(&pair.0, &pair.1) {
                proof {
                    assert forall|a: int| 0 <= a < table.len() implies (#[trigger] table[a]).0
                        != pair.0 by {
                        assert(keys_of(before)[source[a]] == table[a].0);
                        assert(keys_of(before)[n] == pair.0);
                    }
                    lemma_absent(table, pair.0);
                    lemma_push(table, pair.0, pair.1@);
                    assert(before[n] == (pair.0, pair.1@));
                }
                self.entries.push(pair);
                proof {
                    assert(self.table() =~= table.push((pair.0, pair.1@)));
                    let grown = source.push(n);
                    assert forall|j: int| 0 <= j < n + 1 implies grown.contains(j) == (j == n
                        || source.contains(j)) by {
                        if j == n {
                            assert(grown[source.len() as int] == n);
                        } else if source.contains(j) {
                            let a = source.index_of(j);
                            assert(grown[a] == j);
                        } else if grown.contains(j) {
                            let a = grown.index_of(j);
                            assert(source[a] == j);
                        }
                    }
                    source = grown;
                }
            } else {
                proof {
                    assert(!source.contains(n));
                }
            }
        }
        proof {
            let kept = self.table();
            lemma_model_wf(kept);
            assert forall|key: TypeId| self@.contains_key(key) implies old(self)@.contains_key(
                key,
            ) by {
                let a = keys_of(kept).index_of(key);
                assert(0 <= a < kept.len() && keys_of(kept)[a] == key);
                lemma_entry(before, source[a]);
            }
            assert forall|i: int| 0 <= i < old(self).pairs().len() implies {
                let pair = #[trigger] old(self).pairs()[i];
                if self@.contains_key(pair.0) {
                    self@[pair.0] == pair.1@ && call_ensures(keep, (&pair.0, &pair.1), true)
                } else {
                    call_ensures(keep, (&pair.0, &pair.1), false)
                }
            } by {
                let pair = old(self).pairs()[i];
                if self@.contains_key(pair.0) {
                    let a = keys_of(kept).index_of(pair.0);
                    assert(0 <= a < kept.len() && keys_of(kept)[a] == pair.0);
                    assert(keys_of(before)[source[a]] == pair.0);
                    assert(keys_of(before)[i] == pair.0);
                    assert(source[a] == i);
                    lemma_entry(kept, a);
                } else if source.contains(i) {
                    let a = source.index_of(i);
                    lemma_entry(kept, a);
                }
            }
        }
    }
}

} // verus!
