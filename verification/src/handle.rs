//! The typed handle that stands for one restored value.

use crate::erased::answers;
use crate::erased::Erased;
use crate::erased::Kind;
use core::any::TypeId;
use core::ops::Deref;
use core::ops::DerefMut;
use vstd::prelude::*;

verus! {

/// A value that has been restored from its erased form to the type `T`.
///
/// Its view is the value. The leading byte carries nothing; it keeps a handle
/// on a sized `T` as wide as the erased box that it was made from.
#[derive(Debug)]
pub struct DynBox<T>(u8, pub Box<T>);

impl<T> View for DynBox<T> {
    type V = T;

    closed spec fn view(&self) -> T {
        *self.1
    }
}

impl<T> DynBox<T> {
    /// A handle on a boxed value.
    pub fn new(value: Box<T>) -> (handle: Self)
        ensures
            handle@ == *value,
    {
        DynBox(0, value)
    }

    /// Restores an erased value to a handle on a `T`. That succeeds exactly
    /// where the value answers for one key, the key of `T`; otherwise the value
    /// comes back untouched.
    pub fn restore(value: Erased) -> (r: Result<Self, Erased>) where T: 'static
        ensures
            exists|key: TypeId| #[trigger] answers(value, key, r is Ok),
            r matches Err(back) ==> back == value,
    {
        let kind = Kind::<T>::of();
        let r = DynBox::restore_of(value, &kind);
        proof {
            assert(answers(value, kind@, r is Ok));
        }
        r
    }

    /// Restores an erased value to a handle on a `T`, whose key `kind` holds.
    /// That succeeds exactly where the value answers for that key; otherwise
    /// the value comes back untouched.
    pub fn restore_of(value: Erased, kind: &Kind<T>) -> (r: Result<Self, Erased>) where T: 'static
        ensures
            answers(value, kind@, r is Ok),
            r matches Err(back) ==> back == value,
    {
        match kind.downcast(value) {
            Ok(boxed) => Ok(DynBox(0, boxed)),
            Err(back) => Err(back),
        }
    }

    /// Gives the boxed value up.
    pub fn unwrap(self) -> (value: Box<T>)
        ensures
            *value == self@,
    {
        self.1
    }

    /// The value, by reference.
    pub fn as_ref(&self) -> (value: &T)
        ensures
            *value == self@,
    {
        &*self.1
    }

    /// The value, by reference.
    pub fn borrow(&self) -> (value: &T)
        ensures
            *value == self@,
    {
        &*self.1
    }

    /// The value, to be changed in place: what the handle holds afterwards is
    /// what the caller leaves behind the reference.
    pub fn as_mut(&mut self) -> (value: &mut T)
        ensures
            *value == old(self)@,
            final(self)@ == *final(value),
    {
        &mut *self.1
    }

    /// The value, to be changed in place: what the handle holds afterwards is
    /// what the caller leaves behind the reference.
    pub fn borrow_mut(&mut self) -> (value: &mut T)
        ensures
            *value == old(self)@,
            final(self)@ == *final(value),
    {
        &mut *self.1
    }
}

impl<T: Clone> Clone for DynBox<T> {
    /// A handle on a clone of the value.
    fn clone(&self) -> (copy: Self)
        ensures
            cloned::<T>(self@, copy@),
    {
        DynBox(0, self.1.clone())
    }
}

impl<T> Deref for DynBox<T> {
    type Target = T;

    /// The value, by reference.
    fn deref(&self) -> (value: &T)
        ensures
            *value == self@,
    {
        &*self.1
    }
}

impl<T> DerefMut for DynBox<T> {
    /// The value, to be changed in place.
    fn deref_mut(&mut self) -> (value: &mut T)
        ensures
            *value == old(self)@,
            final(self)@ == *final(value),
    {
        &mut *self.1
    }
}

} // verus!
