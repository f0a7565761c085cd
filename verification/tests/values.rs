use dfb::DynBox;
use dfb::Erased;
use dfb::Kind;
use std::any::TypeId;

#[test]
fn an_erased_value_answers_for_its_type() {
    let e = Erased::new(5u32);
    assert_eq!(e.key(), TypeId::of::<u32>());
    assert_ne!(e.key(), TypeId::of::<i32>());
    let s = Erased::new(String::from("text"));
    assert_eq!(s.key(), TypeId::of::<String>());
    assert_ne!(s.key(), e.key());
}

#[test]
fn downcast_restores_the_value() {
    let e = Erased::new(String::from("text"));
    assert_eq!(*e.downcast::<String>().ok().unwrap(), "text");
}

#[test]
fn downcast_to_another_type_gives_the_value_back() {
    let e = Erased::new(5u32);
    let back = e.downcast::<i32>().err().unwrap();
    assert_eq!(back.key(), TypeId::of::<u32>());
    assert_eq!(*back.downcast::<u32>().ok().unwrap(), 5);
}

#[test]
fn downcast_ref_borrows_only_the_right_type() {
    let e = Erased::new(5u32);
    assert_eq!(e.downcast_ref::<u32>(), Some(&5));
    assert_eq!(e.downcast_ref::<u64>(), None);
}

#[test]
fn downcast_mut_changes_the_value_and_keeps_the_key() {
    let mut e = Erased::new(5u32);
    assert!(e.downcast_mut::<u64>().is_none());
    *e.downcast_mut::<u32>().unwrap() = 6;
    assert_eq!(e.key(), TypeId::of::<u32>());
    assert_eq!(e.downcast_ref::<u32>(), Some(&6));
}

#[test]
fn a_handle_gives_its_value_up() {
    let handle = DynBox::new(Box::new(String::from("held")));
    assert_eq!(*handle.unwrap(), "held");
}

#[test]
fn a_handle_lends_its_value() {
    let handle = DynBox::new(Box::new(41u8));
    assert_eq!(*handle.as_ref(), 41);
    assert_eq!(*handle.borrow(), 41);
    assert_eq!(*handle, 41);
    assert_eq!(*handle.1, 41);
}

#[test]
fn a_handle_lets_its_value_be_changed() {
    let mut handle = DynBox::new(Box::new(1u8));
    *handle.as_mut() = 2;
    assert_eq!(*handle.as_ref(), 2);
    *handle.borrow_mut() = 3;
    assert_eq!(*handle.as_ref(), 3);
    *handle = 4;
    assert_eq!(*handle.unwrap(), 4);
}

#[test]
fn a_handle_is_restored_from_the_right_type_only() {
    let handle = DynBox::<u8>::restore(Erased::new(9u8)).ok().unwrap();
    assert_eq!(*handle.unwrap(), 9);
    let back = DynBox::<u16>::restore(Erased::new(9u8)).err().unwrap();
    assert_eq!(back.key(), TypeId::of::<u8>());
    assert_eq!(back.downcast_ref::<u8>(), Some(&9));
}

#[test]
fn a_cloned_handle_holds_an_equal_value() {
    let handle = DynBox::new(Box::new(String::from("twice")));
    let copy = handle.clone();
    assert_eq!(*copy.unwrap(), "twice");
    assert_eq!(*handle.unwrap(), "twice");
}

#[test]
fn a_kind_holds_the_key_of_its_type() {
    assert_eq!(Kind::<u32>::of().key(), TypeId::of::<u32>());
    assert_eq!(Kind::<String>::of().key(), TypeId::of::<String>());
    assert_ne!(Kind::<u32>::of().key(), Kind::<i32>::of().key());
    assert_eq!(Kind::<u32>::of().key(), Kind::<u32>::of().key());
}

#[test]
fn a_kind_erases_under_its_key() {
    let kind = Kind::<String>::of();
    let e = kind.erase(String::from("kept"));
    assert_eq!(e.key(), kind.key());
    assert_eq!(e.downcast_ref::<String>(), Some(&String::from("kept")));
}

#[test]
fn a_kind_restores_exactly_the_values_of_its_key() {
    let small = Kind::<u8>::of();
    let wide = Kind::<u64>::of();
    assert_eq!(*small.downcast(small.erase(3)).ok().unwrap(), 3);
    let back = wide.downcast(small.erase(4)).err().unwrap();
    assert_eq!(back.key(), small.key());
    assert_eq!(*small.downcast(back).ok().unwrap(), 4);
}

#[test]
fn a_kind_lends_exactly_the_values_of_its_key() {
    let small = Kind::<u8>::of();
    let wide = Kind::<u64>::of();
    let mut e = small.erase(5);
    assert_eq!(small.downcast_ref(&e), Some(&5));
    assert_eq!(wide.downcast_ref(&e), None);
    assert!(wide.downcast_mut(&mut e).is_none());
    *small.downcast_mut(&mut e).unwrap() = 6;
    assert_eq!(e.key(), small.key());
    assert_eq!(small.downcast_ref(&e), Some(&6));
}

#[test]
fn a_handle_is_restored_by_the_kind_of_its_type_only() {
    let small = Kind::<u8>::of();
    let wide = Kind::<u16>::of();
    let handle = DynBox::restore_of(small.erase(9), &small).ok().unwrap();
    assert_eq!(*handle.unwrap(), 9);
    let back = DynBox::restore_of(small.erase(9), &wide).err().unwrap();
    assert_eq!(back.key(), small.key());
    assert_eq!(small.downcast_ref(&back), Some(&9));
}
