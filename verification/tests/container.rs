use dfb::Dfb;
use dfb::Erased;
use dfb::Kind;
use std::any::TypeId;
use std::collections::VecDeque;

#[derive(Debug, Clone, PartialEq)]
struct Apple {
    x: i32,
}

#[derive(Debug, Clone, PartialEq)]
struct Pear {
    y: i64,
}

fn apples(dfb: &Dfb) -> Vec<i32> {
    match dfb.get::<Apple>() {
        Some(list) => list.iter().map(|a| a.x).collect(),
        None => Vec::new(),
    }
}

#[test]
fn new_container_is_empty() {
    let mut dfb = Dfb::new();
    assert_eq!(dfb.len(), 0);
    assert!(dfb.is_empty());
    assert!(!dfb.contains::<Apple>());
    assert!(!dfb.contains_key(TypeId::of::<Apple>()));
    assert!(dfb.get::<Apple>().is_none());
    assert!(dfb.get_dyn(TypeId::of::<Apple>()).is_none());
    assert_eq!(dfb.remove::<Apple>(), None);
    assert!(dfb.remove_dyn(TypeId::of::<Apple>()).is_none());
    assert!(dfb.keys().is_empty());
}

#[test]
fn default_container_is_empty() {
    let dfb = Dfb::default();
    assert!(dfb.is_empty());
    assert_eq!(dfb.len(), 0);
}

#[test]
fn with_capacity_gives_room_and_nothing_else() {
    let dfb = Dfb::with_capacity(8);
    assert!(dfb.is_empty());
    assert!(dfb.capacity() >= 8);
}

#[test]
fn len_counts_types_not_values() {
    let mut dfb = Dfb::new();
    dfb.insert(Apple { x: 1 });
    dfb.insert(Apple { x: 2 });
    dfb.insert(Apple { x: 3 });
    assert_eq!(dfb.len(), 1);
    dfb.insert(Pear { y: 4 });
    assert_eq!(dfb.len(), 2);
    assert!(!dfb.is_empty());
}

#[test]
fn values_of_one_type_leave_in_the_order_they_came() {
    let mut dfb = Dfb::new();
    dfb.insert(Apple { x: 1 });
    dfb.insert(Pear { y: 10 });
    dfb.insert(Apple { x: 2 });
    dfb.insert(Pear { y: 20 });
    dfb.insert(Pear { y: 30 });
    dfb.insert(Apple { x: 3 });
    assert_eq!(dfb.remove::<Pear>(), Some(Pear { y: 10 }));
    assert_eq!(dfb.remove::<Apple>(), Some(Apple { x: 1 }));
    assert_eq!(dfb.remove::<Apple>(), Some(Apple { x: 2 }));
    assert_eq!(dfb.remove::<Pear>(), Some(Pear { y: 20 }));
    assert_eq!(dfb.remove::<Apple>(), Some(Apple { x: 3 }));
    assert_eq!(dfb.remove::<Pear>(), Some(Pear { y: 30 }));
    assert!(dfb.is_empty());
}

#[test]
fn an_exhausted_type_is_gone_and_the_others_stay() {
    let mut dfb = Dfb::new();
    dfb.insert(Apple { x: 1 });
    dfb.insert(Pear { y: 10 });
    dfb.insert(Pear { y: 20 });
    assert_eq!(dfb.remove::<Apple>(), Some(Apple { x: 1 }));
    assert!(!dfb.contains::<Apple>());
    assert!(dfb.get::<Apple>().is_none());
    assert_eq!(dfb.len(), 1);
    assert_eq!(dfb.remove::<Apple>(), None);
    assert_eq!(dfb.len(), 1);
    let pears: Vec<i64> = dfb.get::<Pear>().unwrap().iter().map(|p| p.y).collect();
    assert_eq!(pears, vec![10, 20]);
}

#[test]
fn inserting_one_type_leaves_another_alone() {
    let mut dfb = Dfb::new();
    dfb.insert(Pear { y: 10 });
    assert!(!dfb.contains::<Apple>());
    for x in 0..50 {
        dfb.insert(Apple { x });
    }
    assert!(dfb.contains::<Pear>());
    assert_eq!(dfb.get::<Pear>().unwrap().len(), 1);
    assert_eq!(dfb.remove::<Pear>(), Some(Pear { y: 10 }));
    assert!(!dfb.contains::<Pear>());
    assert_eq!(apples(&dfb).len(), 50);
}

#[test]
fn a_value_inserted_alone_comes_back_equal() {
    let mut dfb = Dfb::new();
    dfb.insert(String::from("round trip"));
    assert_eq!(dfb.remove::<String>(), Some(String::from("round trip")));
    dfb.insert(7u64);
    assert_eq!(dfb.remove::<u64>(), Some(7u64));
    assert!(dfb.is_empty());
}

#[test]
fn a_value_inserted_behind_others_waits_its_turn() {
    let mut dfb = Dfb::new();
    dfb.insert(1u8);
    dfb.insert(2u8);
    assert_eq!(dfb.remove::<u8>(), Some(1));
    assert_eq!(dfb.remove::<u8>(), Some(2));
    assert_eq!(dfb.remove::<u8>(), None);
}

#[test]
fn no_empty_queue_stays_behind() {
    let mut dfb = Dfb::new();
    dfb.insert(Apple { x: 1 });
    dfb.insert(Pear { y: 2 });
    assert_eq!(dfb.keys().len(), 2);
    dfb.remove::<Apple>();
    assert_eq!(dfb.len(), 1);
    assert_eq!(dfb.keys(), vec![TypeId::of::<Pear>()]);
    for queue in dfb.values() {
        assert!(!queue.is_empty());
    }
    dfb.remove::<Pear>();
    assert_eq!(dfb.len(), 0);
    assert!(dfb.values().is_empty());
}

#[test]
fn exact_types_only() {
    let mut dfb = Dfb::new();
    dfb.insert(5u32);
    assert!(!dfb.contains::<i32>());
    assert!(!dfb.contains::<u64>());
    assert!(!dfb.contains::<Box<u32>>());
    assert_eq!(dfb.remove::<i32>(), None);
    assert_eq!(dfb.remove::<u32>(), Some(5));
}

#[test]
fn insert_dyn_finds_the_type_in_the_value() {
    let mut dfb = Dfb::new();
    dfb.insert(Apple { x: 1 });
    dfb.insert_dyn(Erased::new(Apple { x: 2 }));
    dfb.insert_dyn(Erased::new(Pear { y: 3 }));
    assert_eq!(dfb.len(), 2);
    assert_eq!(apples(&dfb), vec![1, 2]);
    assert_eq!(dfb.remove::<Pear>(), Some(Pear { y: 3 }));
}

#[test]
fn remove_dyn_takes_the_oldest_under_a_key() {
    let mut dfb = Dfb::new();
    dfb.insert(Apple { x: 1 });
    dfb.insert(Apple { x: 2 });
    let first = dfb.remove_dyn(TypeId::of::<Apple>()).unwrap();
    assert_eq!(first.key(), TypeId::of::<Apple>());
    assert_eq!(*first.downcast::<Apple>().ok().unwrap(), Apple { x: 1 });
    assert!(dfb.remove_dyn(TypeId::of::<Pear>()).is_none());
    assert_eq!(dfb.len(), 1);
    assert!(dfb.remove_dyn(TypeId::of::<Apple>()).is_some());
    assert!(dfb.remove_dyn(TypeId::of::<Apple>()).is_none());
    assert!(dfb.is_empty());
}

#[test]
fn get_shows_the_values_oldest_first_and_moves_nothing() {
    let mut dfb = Dfb::new();
    dfb.insert(Apple { x: 3 });
    dfb.insert(Pear { y: 9 });
    dfb.insert(Apple { x: 1 });
    dfb.insert(Apple { x: 2 });
    assert_eq!(apples(&dfb), vec![3, 1, 2]);
    assert_eq!(apples(&dfb), vec![3, 1, 2]);
    assert_eq!(dfb.remove::<Apple>(), Some(Apple { x: 3 }));
    assert_eq!(apples(&dfb), vec![1, 2]);
}

#[test]
fn get_dyn_and_index_give_the_queue_of_a_key() {
    let mut dfb = Dfb::new();
    dfb.insert(Apple { x: 3 });
    dfb.insert(Apple { x: 4 });
    dfb.insert(Pear { y: 9 });
    let key = TypeId::of::<Apple>();
    assert_eq!(dfb.get_dyn(key).unwrap().len(), 2);
    let queue = dfb.index(key);
    assert_eq!(queue.len(), 2);
    assert_eq!(queue[0].downcast_ref::<Apple>(), Some(&Apple { x: 3 }));
    assert_eq!(queue[1].downcast_ref::<Apple>(), Some(&Apple { x: 4 }));
    assert_eq!(dfb.index(TypeId::of::<Pear>()).len(), 1);
    assert!(dfb.get_dyn(TypeId::of::<u8>()).is_none());
}

#[test]
fn get_mut_changes_one_value_in_place() {
    let mut dfb = Dfb::new();
    dfb.insert(Apple { x: 1 });
    dfb.insert(Pear { y: 9 });
    dfb.insert(Apple { x: 2 });
    dfb.get_mut::<Apple>(1).unwrap().x = 20;
    *dfb.get_mut::<Pear>(0).unwrap() = Pear { y: 90 };
    assert_eq!(dfb.len(), 2);
    assert_eq!(apples(&dfb), vec![1, 20]);
    assert_eq!(dfb.remove::<Pear>(), Some(Pear { y: 90 }));
    assert_eq!(dfb.remove::<Apple>(), Some(Apple { x: 1 }));
    assert_eq!(dfb.remove::<Apple>(), Some(Apple { x: 20 }));
}

#[test]
fn get_mut_gives_nothing_past_the_end_or_for_a_type_not_stored() {
    let mut dfb = Dfb::new();
    dfb.insert(Apple { x: 1 });
    assert!(dfb.get_mut::<Apple>(1).is_none());
    assert!(dfb.get_mut::<Apple>(usize::MAX).is_none());
    assert!(dfb.get_mut::<Pear>(0).is_none());
    assert_eq!(apples(&dfb), vec![1]);
}

#[test]
fn keys_values_and_iter_walk_the_same_pairs() {
    let mut dfb = Dfb::new();
    dfb.insert(Apple { x: 1 });
    dfb.insert(Pear { y: 2 });
    dfb.insert(Apple { x: 3 });
    let keys = dfb.keys();
    let values = dfb.values();
    let pairs = dfb.iter();
    assert_eq!(keys.len(), 2);
    assert_eq!(values.len(), 2);
    assert_eq!(pairs.len(), 2);
    assert!(keys.contains(&TypeId::of::<Apple>()));
    assert!(keys.contains(&TypeId::of::<Pear>()));
    for i in 0..2 {
        assert_eq!(pairs[i].0, keys[i]);
        assert_eq!(pairs[i].1.len(), values[i].len());
        let expected = if keys[i] == TypeId::of::<Apple>() { 2 } else { 1 };
        assert_eq!(values[i].len(), expected);
        for value in values[i].iter() {
            assert_eq!(value.key(), keys[i]);
        }
    }
    assert_eq!(dfb.len(), 2);
}

#[test]
fn drain_hands_everything_out() {
    let mut dfb = Dfb::new();
    dfb.insert(Apple { x: 1 });
    dfb.insert(Pear { y: 2 });
    dfb.insert(Apple { x: 3 });
    let pairs = dfb.drain();
    assert!(dfb.is_empty());
    assert_eq!(dfb.len(), 0);
    assert_eq!(pairs.len(), 2);
    let total: usize = pairs.iter().map(|p| p.1.len()).sum();
    assert_eq!(total, 3);
    dfb.insert(Apple { x: 4 });
    assert_eq!(dfb.remove::<Apple>(), Some(Apple { x: 4 }));
}

#[test]
fn into_iter_gives_the_pairs() {
    let mut dfb = Dfb::new();
    dfb.insert(Apple { x: 1 });
    dfb.insert(Apple { x: 2 });
    let mut pairs = dfb.into_iter();
    assert_eq!(pairs.len(), 1);
    let (key, mut queue) = pairs.pop().unwrap();
    assert_eq!(key, TypeId::of::<Apple>());
    assert_eq!(*queue.pop_front().unwrap().downcast::<Apple>().ok().unwrap(), Apple { x: 1 });
    assert_eq!(*queue.pop_front().unwrap().downcast::<Apple>().ok().unwrap(), Apple { x: 2 });
    assert!(queue.is_empty());
}

#[test]
fn clear_drops_everything() {
    let mut dfb = Dfb::new();
    dfb.insert(Apple { x: 1 });
    dfb.insert(Pear { y: 2 });
    dfb.clear();
    assert!(dfb.is_empty());
    assert!(!dfb.contains::<Apple>());
    assert_eq!(dfb.remove::<Pear>(), None);
}

#[test]
fn reserve_and_shrink_change_nothing_stored() {
    let mut dfb = Dfb::new();
    dfb.insert(Apple { x: 1 });
    dfb.insert(Pear { y: 2 });
    dfb.reserve(100);
    assert!(dfb.capacity() >= 102);
    assert_eq!(dfb.len(), 2);
    dfb.shrink_to_fit();
    assert!(dfb.capacity() >= 2);
    assert_eq!(dfb.len(), 2);
    assert_eq!(dfb.remove::<Apple>(), Some(Apple { x: 1 }));
    assert_eq!(dfb.remove::<Pear>(), Some(Pear { y: 2 }));
}

#[test]
fn retain_keeps_whole_queues_or_drops_them() {
    let mut dfb = Dfb::new();
    dfb.insert(Apple { x: 1 });
    dfb.insert(Pear { y: 2 });
    dfb.insert(Apple { x: 3 });
    dfb.insert(9u8);
    dfb.retain(|_key: &TypeId, queue: &VecDeque<Erased>| queue.len() > 1);
    assert_eq!(dfb.len(), 1);
    assert_eq!(apples(&dfb), vec![1, 3]);
    assert!(!dfb.contains::<Pear>());
    assert!(!dfb.contains::<u8>());
    let pear = TypeId::of::<Pear>();
    dfb.insert(Pear { y: 5 });
    dfb.retain(move |key: &TypeId, _queue: &VecDeque<Erased>| *key == pear);
    assert_eq!(dfb.keys(), vec![pear]);
    dfb.retain(|_key: &TypeId, _queue: &VecDeque<Erased>| false);
    assert!(dfb.is_empty());
}

#[test]
fn a_batch_is_sorted_by_type_and_keeps_its_order() {
    let mut dfb = Dfb::from_iter(vec![
        Erased::new(Apple { x: 1 }),
        Erased::new(Pear { y: 2 }),
        Erased::new(Apple { x: 3 }),
        Erased::new(Apple { x: 4 }),
    ]);
    assert_eq!(dfb.len(), 2);
    assert_eq!(apples(&dfb), vec![1, 3, 4]);
    assert_eq!(dfb.remove::<Pear>(), Some(Pear { y: 2 }));
    assert_eq!(dfb.remove::<Pear>(), None);
}

#[test]
fn an_empty_batch_is_an_empty_container() {
    assert!(Dfb::from_iter(Vec::new()).is_empty());
    let none: [Erased; 0] = [];
    assert!(Dfb::from(none).is_empty());
}

#[test]
fn an_array_keeps_its_order() {
    let mut dfb = Dfb::from([Erased::new(3u16), Erased::new(1u16), Erased::new(2u16)]);
    assert_eq!(dfb.len(), 1);
    assert_eq!(dfb.remove::<u16>(), Some(3));
    assert_eq!(dfb.remove::<u16>(), Some(1));
    assert_eq!(dfb.remove::<u16>(), Some(2));
    assert_eq!(dfb.remove::<u16>(), None);
}

fn queue_of_apples(xs: &[i32]) -> VecDeque<Erased> {
    xs.iter().map(|x| Erased::new(Apple { x: *x })).collect()
}

#[test]
fn extend_adopts_new_types_and_replaces_stored_ones() {
    let mut dfb = Dfb::new();
    dfb.insert(Apple { x: 1 });
    dfb.insert(9u8);
    let pears: VecDeque<Erased> = vec![Erased::new(Pear { y: 7 })].into_iter().collect();
    dfb.extend(vec![
        (TypeId::of::<Apple>(), queue_of_apples(&[5, 6])),
        (TypeId::of::<Pear>(), pears),
    ]);
    assert_eq!(dfb.len(), 3);
    assert_eq!(apples(&dfb), vec![5, 6]);
    assert_eq!(dfb.remove::<Pear>(), Some(Pear { y: 7 }));
    assert_eq!(dfb.remove::<u8>(), Some(9));
}

#[test]
fn extend_lets_the_later_pair_win() {
    let mut dfb = Dfb::new();
    dfb.extend(vec![
        (TypeId::of::<Apple>(), queue_of_apples(&[1])),
        (TypeId::of::<Apple>(), queue_of_apples(&[2, 3])),
    ]);
    assert_eq!(dfb.len(), 1);
    assert_eq!(apples(&dfb), vec![2, 3]);
}

#[test]
fn extend_turns_away_what_may_not_rest() {
    let mut dfb = Dfb::new();
    dfb.insert(Apple { x: 1 });
    let mut mixed = queue_of_apples(&[8]);
    mixed.push_back(Erased::new(Pear { y: 0 }));
    dfb.extend(vec![
        (TypeId::of::<Pear>(), VecDeque::new()),
        (TypeId::of::<Apple>(), VecDeque::new()),
        (TypeId::of::<Pear>(), queue_of_apples(&[4])),
        (TypeId::of::<Apple>(), mixed),
    ]);
    assert_eq!(dfb.len(), 1);
    assert!(!dfb.contains::<Pear>());
    assert_eq!(apples(&dfb), vec![1]);
}

#[test]
fn from_pairs_files_every_value() {
    let mut dfb = Dfb::from_pairs(vec![
        (TypeId::of::<Apple>(), queue_of_apples(&[1, 2])),
        (TypeId::of::<u8>(), VecDeque::new()),
    ]);
    assert_eq!(dfb.len(), 1);
    assert_eq!(dfb.remove::<Apple>(), Some(Apple { x: 1 }));
    assert_eq!(dfb.remove::<Apple>(), Some(Apple { x: 2 }));
    assert!(dfb.is_empty());
}

#[test]
fn from_pairs_joins_the_queues_of_one_type_in_order() {
    let pears: VecDeque<Erased> = vec![Erased::new(Pear { y: 7 })].into_iter().collect();
    let mut dfb = Dfb::from_pairs(vec![
        (TypeId::of::<Apple>(), queue_of_apples(&[1])),
        (TypeId::of::<Pear>(), pears),
        (TypeId::of::<Apple>(), queue_of_apples(&[2, 3])),
        (TypeId::of::<Apple>(), queue_of_apples(&[4])),
    ]);
    assert_eq!(dfb.len(), 2);
    assert_eq!(apples(&dfb), vec![1, 2, 3, 4]);
    assert_eq!(dfb.remove::<Pear>(), Some(Pear { y: 7 }));
    assert_eq!(dfb.remove::<Pear>(), None);
}

#[test]
fn from_pairs_files_a_value_under_its_own_type() {
    let mut mixed = queue_of_apples(&[8]);
    mixed.push_back(Erased::new(Pear { y: 9 }));
    let mut dfb = Dfb::from_pairs(vec![(TypeId::of::<u8>(), mixed)]);
    assert_eq!(dfb.len(), 2);
    assert!(!dfb.contains::<u8>());
    assert_eq!(dfb.remove::<Apple>(), Some(Apple { x: 8 }));
    assert_eq!(dfb.remove::<Pear>(), Some(Pear { y: 9 }));
}

#[test]
fn from_pairs_of_nothing_is_empty() {
    assert!(Dfb::from_pairs(Vec::new()).is_empty());
}

#[test]
fn end_to_end_two_structs() {
    let mut dfb = Dfb::new();
    dfb.insert(Apple { x: 22 });
    dfb.insert(Pear { y: -435 });
    assert_eq!(dfb.remove::<Apple>(), Some(Apple { x: 22 }));
    assert_eq!(dfb.remove::<Pear>(), Some(Pear { y: -435 }));
}

#[test]
fn end_to_end_batch() {
    let mut dfb = Dfb::from([
        Erased::new(Apple { x: 22 }),
        Erased::new(Apple { x: 14 }),
        Erased::new(Pear { y: -435 }),
    ]);
    assert_eq!(dfb.remove::<Apple>(), Some(Apple { x: 22 }));
    assert_eq!(dfb.remove::<Apple>(), Some(Apple { x: 14 }));
    assert_eq!(dfb.remove::<Apple>(), None);
    assert_eq!(dfb.remove::<Pear>(), Some(Pear { y: -435 }));
}

#[test]
fn room_that_cannot_be_had_is_no_failure() {
    let mut dfb = Dfb::with_capacity(usize::MAX);
    assert!(dfb.is_empty());
    dfb.insert(Apple { x: 1 });
    dfb.reserve(usize::MAX);
    dfb.reserve(usize::MAX / 2);
    assert_eq!(dfb.len(), 1);
    assert_eq!(dfb.remove::<Apple>(), Some(Apple { x: 1 }));
}

#[test]
fn remove_of_gives_a_value_exactly_where_one_is_stored() {
    let apple = Kind::<Apple>::of();
    let pear = Kind::<Pear>::of();
    let mut dfb = Dfb::new();
    assert_eq!(dfb.remove_of(&apple), None);
    dfb.insert(Apple { x: 1 });
    dfb.insert(Apple { x: 2 });
    assert_eq!(dfb.remove_of(&pear), None);
    assert_eq!(dfb.len(), 1);
    assert_eq!(dfb.remove_of(&apple), Some(Apple { x: 1 }));
    assert_eq!(dfb.remove_of(&apple), Some(Apple { x: 2 }));
    assert_eq!(dfb.remove_of(&apple), None);
    assert!(dfb.is_empty());
}

#[test]
fn get_of_shows_all_values_under_the_key() {
    let apple = Kind::<Apple>::of();
    let pear = Kind::<Pear>::of();
    let mut dfb = Dfb::new();
    assert!(dfb.get_of(&apple).is_none());
    dfb.insert(Apple { x: 4 });
    dfb.insert(Pear { y: 5 });
    dfb.insert(Apple { x: 6 });
    assert_eq!(dfb.get_of(&apple).unwrap(), vec![&Apple { x: 4 }, &Apple { x: 6 }]);
    assert_eq!(dfb.get_of(&pear).unwrap(), vec![&Pear { y: 5 }]);
    assert!(dfb.get_of(&Kind::<u8>::of()).is_none());
}

#[test]
fn get_mut_of_lends_exactly_the_places_that_are_there() {
    let apple = Kind::<Apple>::of();
    let mut dfb = Dfb::new();
    assert!(dfb.get_mut_of(&apple, 0).is_none());
    dfb.insert(Apple { x: 1 });
    dfb.insert(Apple { x: 2 });
    assert!(dfb.get_mut_of(&apple, 2).is_none());
    assert!(dfb.get_mut_of(&Kind::<Pear>::of(), 0).is_none());
    dfb.get_mut_of(&apple, 0).unwrap().x = 10;
    dfb.get_mut_of(&apple, 1).unwrap().x = 20;
    assert_eq!(apples(&dfb), vec![10, 20]);
    assert_eq!(dfb.len(), 1);
}

#[test]
fn capacity_is_never_less_than_what_is_stored() {
    let mut dfb = Dfb::new();
    assert!(dfb.capacity() >= dfb.len());
    dfb.insert(1u8);
    dfb.insert(2u16);
    dfb.insert(3u32);
    assert!(dfb.capacity() >= 3);
    dfb.shrink_to_fit();
    assert!(dfb.capacity() >= dfb.len());
}
