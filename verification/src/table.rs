//! How the container is laid out: a list of pairs, a key and its queue, in
//! which no key stands twice. The lemmas here carry each change of the list
//! over to the map that the list stands for.

use crate::erased::Erased;
use crate::model::model_wf;
use crate::model::well_filed;
use crate::model::Queues;
use core::any::TypeId;
use vstd::prelude::*;

verus! {

/// The list of pairs, each queue by its view.
pub type Table = Seq<(TypeId, Seq<Erased>)>;

/// The keys of the pairs, in the order of the list.
pub open spec fn keys_of(t: Table) -> Seq<TypeId> {
    t.map_values(|p: (TypeId, Seq<Erased>)| p.0)
}

/// No key stands twice, and every queue may rest under its key.
pub open spec fn table_wf(t: Table) -> bool {
    &&& keys_of(t).no_duplicates()
    &&& forall|i: int| 0 <= i < t.len() ==> well_filed((#[trigger] t[i]).0, t[i].1)
}

/// The map that the list stands for.
pub open spec fn table_map(t: Table) -> Queues {
    Map::new(|key: TypeId| keys_of(t).contains(key), |key: TypeId| t[keys_of(t).index_of(key)].1)
}

/// Each pair of the list is an entry of the map.
pub proof fn lemma_entry(t: Table, i: int)
    requires
        keys_of(t).no_duplicates(),
        0 <= i < t.len(),
    ensures
        table_map(t).contains_key(t[i].0),
        table_map(t)[t[i].0] == t[i].1,
{
    let keys = keys_of(t);
    assert(keys[i] == t[i].0);
    let j = keys.index_of(t[i].0);
    assert(0 <= j < keys.len() && keys[j] == t[i].0);
}

/// A key that no pair has is no key of the map.
pub proof fn lemma_absent(t: Table, key: TypeId)
    requires
        forall|i: int| 0 <= i < t.len() ==> (#[trigger] t[i]).0 != key,
    ensures
        !table_map(t).contains_key(key),
{
    let keys = keys_of(t);
    if keys.contains(key) {
        let j = choose|j: int| 0 <= j < keys.len() && keys[j] == key;
        assert(t[j].0 == key);
    }
}

/// The map has as many keys as the list has pairs.
pub proof fn lemma_count(t: Table)
    requires
        keys_of(t).no_duplicates(),
    ensures
        table_map(t).dom().finite(),
        table_map(t).dom().len() == t.len(),
{
    let keys = keys_of(t);
    keys.unique_seq_to_set();
    vstd::seq_lib::seq_to_set_is_finite(keys);
    assert(table_map(t).dom() =~= keys.to_set());
}

/// A list that is well-formed stands for a model that is.
pub proof fn lemma_model_wf(t: Table)
    requires
        table_wf(t),
    ensures
        model_wf(table_map(t)),
{
    lemma_count(t);
    let m = table_map(t);
    assert forall|key: TypeId| #[trigger] m.contains_key(key) implies well_filed(key, m[key]) by {
        let keys = keys_of(t);
        let j = keys.index_of(key);
        assert(0 <= j < keys.len() && keys[j] == key);
        assert(well_filed(t[j].0, t[j].1));
    }
}

/// A pair with a new key, put at the end, is a new entry of the map.
pub proof fn lemma_push(t: Table, key: TypeId, queue: Seq<Erased>)
    requires
        keys_of(t).no_duplicates(),
        !table_map(t).contains_key(key),
    ensures
        keys_of(t.push((key, queue))).no_duplicates(),
        table_map(t.push((key, queue))) == table_map(t).insert(key, queue),
{
    let after = t.push((key, queue));
    assert(keys_of(after) =~= keys_of(t).push(key));
    assert forall|i: int, j: int|
        0 <= i < after.len() && 0 <= j < after.len() && i != j implies keys_of(after)[i]
        != keys_of(after)[j] by {
        if i < t.len() {
            assert(keys_of(t)[i] == keys_of(after)[i]);
        }
        if j < t.len() {
            assert(keys_of(t)[j] == keys_of(after)[j]);
        }
    }
    assert forall|k: TypeId| table_map(after).contains_key(k) == table_map(t).insert(
        key,
        queue,
    ).contains_key(k) by {
        if keys_of(t).contains(k) {
            let j = keys_of(t).index_of(k);
            assert(keys_of(after)[j] == k);
        }
        if k == key {
            assert(keys_of(after)[t.len() as int] == key);
        }
    }
    assert forall|k: TypeId| #[trigger] table_map(after).contains_key(k) implies table_map(
        after,
    )[k] == table_map(t).insert(key, queue)[k] by {
        let j = keys_of(after).index_of(k);
        assert(0 <= j < after.len() && keys_of(after)[j] == k);
        lemma_entry(after, j);
        if j < t.len() {
            lemma_entry(t, j);
        }
    }
    assert(table_map(after) =~= table_map(t).insert(key, queue));
}

/// A new queue in the place of a pair's queue is a new value under that
/// pair's key.
pub proof fn lemma_update(t: Table, i: int, queue: Seq<Erased>)
    requires
        keys_of(t).no_duplicates(),
        0 <= i < t.len(),
    ensures
        keys_of(t.update(i, (t[i].0, queue))) == keys_of(t),
        table_map(t.update(i, (t[i].0, queue))) == table_map(t).insert(t[i].0, queue),
{
    let after = t.update(i, (t[i].0, queue));
    assert(keys_of(after) =~= keys_of(t));
    assert forall|k: TypeId| #[trigger] table_map(after).contains_key(k) implies table_map(
        after,
    )[k] == table_map(t).insert(t[i].0, queue)[k] by {
        let j = keys_of(after).index_of(k);
        assert(0 <= j < after.len() && keys_of(after)[j] == k);
        lemma_entry(after, j);
        lemma_entry(t, j);
        assert(keys_of(t)[j] == t[j].0 && keys_of(t)[i] == t[i].0);
    }
    lemma_entry(t, i);
    assert(table_map(after) =~= table_map(t).insert(t[i].0, queue));
}

/// A pair taken out of the list is an entry taken out of the map.
pub proof fn lemma_remove(t: Table, i: int)
    requires
        keys_of(t).no_duplicates(),
        0 <= i < t.len(),
    ensures
        keys_of(t.remove(i)).no_duplicates(),
        table_map(t.remove(i)) == table_map(t).remove(t[i].0),
{
    let after = t.remove(i);
    assert(keys_of(after) =~= keys_of(t).remove(i));
    assert forall|a: int, b: int|
        0 <= a < after.len() && 0 <= b < after.len() && a != b implies keys_of(after)[a]
        != keys_of(after)[b] by {
        let a0 = if a < i { a } else { a + 1 };
        let b0 = if b < i { b } else { b + 1 };
        assert(keys_of(after)[a] == keys_of(t)[a0]);
        assert(keys_of(after)[b] == keys_of(t)[b0]);
    }
    assert forall|k: TypeId| table_map(after).contains_key(k) == table_map(t).remove(
        t[i].0,
    ).contains_key(k) by {
        if keys_of(after).contains(k) {
            let j = keys_of(after).index_of(k);
            let j0 = if j < i { j } else { j + 1 };
            assert(keys_of(t)[j0] == k);
            assert(keys_of(t)[i] == t[i].0);
        }
        if keys_of(t).contains(k) && k != t[i].0 {
            let j = keys_of(t).index_of(k);
            assert(keys_of(t)[i] == t[i].0);
            let j1 = if j < i { j } else { j - 1 };
            assert(keys_of(after)[j1] == k);
        }
    }
    assert forall|k: TypeId| #[trigger] table_map(after).contains_key(k) implies table_map(
        after,
    )[k] == table_map(t).remove(t[i].0)[k] by {
        let j = keys_of(after).index_of(k);
        assert(0 <= j < after.len() && keys_of(after)[j] == k);
        let j0 = if j < i { j } else { j + 1 };
        lemma_entry(after, j);
        lemma_entry(t, j0);
    }
    assert(table_map(after) =~= table_map(t).remove(t[i].0));
}

} // verus!
