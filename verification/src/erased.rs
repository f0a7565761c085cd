//! Values whose static type has been erased, and the keys of runtime types.
//!
//! Everything that touches `dyn Any` lives here. The verifier sees an erased
//! value as an opaque thing with one observable property, the key of its
//! runtime type; what the standard library does with it is stated, not proved.
//!
//! A [`Kind<T>`] is the key of the type `T` held as a value. What the standard
//! library does for a type `T` is stated against the key in a `Kind<T>`.

use core::any::Any;
use core::any::TypeId;
use core::marker::PhantomData;
use vstd::prelude::*;

verus! {

/// `core::any::TypeId`, the key of a type. Opaque: two keys can be compared
/// and copied, nothing else.
#[verifier::external_type_specification]
#[verifier::external_body]
pub struct ExTypeId(TypeId);

/// An owned value of some `'static` type that is no longer known statically.
///
/// It holds a `Box<dyn Any>`, which the verifier cannot take in a field of an
/// ordinary struct, so the struct is opaque to it.
#[verifier::external_body]
#[derive(Debug)]
pub struct Erased {
    inner: Box<dyn Any>,
}

/// The key of the runtime type of the value inside `e`, as `Any::type_id`
/// reports it.
pub uninterp spec fn erased_key(e: Erased) -> TypeId;

/// The key of the type `T`, held as a value. Its view is the key.
///
/// There is one way to make a `Kind<T>`, [`Kind::of`], which asks the running
/// program for the key of `T`, and no way to turn a `Kind<T>` into the kind of
/// another type: the marker makes the struct invariant in `T`, so not even a
/// subtype of `T` will do. So the key in a `Kind<T>` is the key of `T`, and
/// what is stated below of the standard library's work on a `T` is stated
/// against it.
pub struct Kind<T: 'static> {
    key: TypeId,
    marker: PhantomData<&'static mut T>,
}

impl<T: 'static> View for Kind<T> {
    type V = TypeId;

    closed spec fn view(&self) -> TypeId {
        self.key
    }
}

/// `e` answers for `key`, or does not: `gave` says which.
pub open spec fn answers(e: Erased, key: TypeId, gave: bool) -> bool {
    gave == (erased_key(e) == key)
}

/// `TypeId::of::<T>()`, kept with the type that it is the key of.
#[verifier::external_body]
fn kind_of<T: 'static>() -> (kind: Kind<T>) {
    Kind { key: TypeId::of::<T>(), marker: PhantomData }
}

/// `TypeId`'s `==`: true exactly when both keys are the same key.
#[verifier::external_body]
pub(crate) fn same_key(a: &TypeId, b: &TypeId) -> (same: bool)
    ensures
        same == (*a == *b),
{
    a == b
}

/// `Box::new` followed by the coercion to `Box<dyn Any>`: the runtime type of
/// the boxed value is `T`, whose key `kind` holds.
#[verifier::external_body]
fn erase<T: 'static>(value: T, kind: &Kind<T>) -> (e: Erased)
    ensures
        erased_key(e) == kind@,
{
    Erased { inner: Box::new(value) }
}

/// `Any::type_id` on the boxed value: the key that [`erased_key`] names.
#[verifier::external_body]
fn runtime_key(e: &Erased) -> (key: TypeId)
    ensures
        key == erased_key(*e),
{
    (*e.inner).type_id()
}

/// `Box<dyn Any>::downcast::<T>`: the box of a `T` exactly where the runtime
/// type of the value is `T`, whose key `kind` holds; on a value of another type
/// the very same erased value again.
#[verifier::external_body]
fn restore<T: 'static>(e: Erased, kind: &Kind<T>) -> (r: Result<Box<T>, Erased>)
    ensures
        r is Ok <==> erased_key(e) == kind@,
        r matches Err(back) ==> back == e,
{
    match e.inner.downcast::<T>() {
        Ok(value) => Ok(value),
        Err(inner) => Err(Erased { inner }),
    }
}

/// `<dyn Any>::downcast_ref::<T>`: a reference to the value exactly where its
/// runtime type is `T`, whose key `kind` holds.
#[verifier::external_body]
fn peek<'a, T: 'static>(e: &'a Erased, kind: &Kind<T>) -> (r: Option<&'a T>)
    ensures
        r is Some <==> erased_key(*e) == kind@,
{
    e.inner.downcast_ref::<T>()
}

/// `<dyn Any>::downcast_mut::<T>`: a mutable reference to the value exactly
/// where its runtime type is `T`, whose key `kind` holds. Whatever is written
/// through it is a `T` again, so the key stays; where the value is no `T`,
/// nothing can be written and it stays as it is.
#[verifier::external_body]
fn peek_mut<'a, T: 'static>(e: &'a mut Erased, kind: &Kind<T>) -> (r: Option<&'a mut T>)
    ensures
        r is Some <==> erased_key(*old(e)) == kind@,
        erased_key(*final(e)) == erased_key(*old(e)),
        r is None ==> *final(e) == *old(e),
{
    e.inner.downcast_mut::<T>()
}

impl<T: 'static> Kind<T> {
    /// The key of `T`, as the running program gives it.
    pub fn of() -> (kind: Kind<T>) {
        kind_of()
    }

    /// The key.
    pub fn key(&self) -> (key: TypeId)
        ensures
            key == self@,
    {
        self.key
    }

    /// Erases the static type of `value`. The erased value answers for the key
    /// of `T`.
    pub fn erase(&self, value: T) -> (e: Erased)
        ensures
            erased_key(e) == self@,
    {
        erase(value, self)
    }

    /// Restores `e` to a `T`. That succeeds exactly where `e` answers for the
    /// key of `T`; otherwise `e` comes back untouched.
    pub fn downcast(&self, e: Erased) -> (r: Result<Box<T>, Erased>)
        ensures
            answers(e, self@, r is Ok),
            r matches Err(back) ==> back == e,
    {
        restore(e, self)
    }

    /// Borrows the value in `e` as a `T`, exactly where `e` answers for the key
    /// of `T`.
    pub fn downcast_ref<'a>(&self, e: &'a Erased) -> (r: Option<&'a T>)
        ensures
            answers(*e, self@, r is Some),
    {
        peek(e, self)
    }

    /// Borrows the value in `e` as a `T` to be changed in place, exactly where
    /// `e` answers for the key of `T`. Whatever the caller writes, the key
    /// stays; where nothing is lent, `e` stays as it is.
    pub fn downcast_mut<'a>(&self, e: &'a mut Erased) -> (r: Option<&'a mut T>)
        ensures
            answers(*old(e), self@, r is Some),
            erased_key(*final(e)) == erased_key(*old(e)),
            r is None ==> *final(e) == *old(e),
    {
        peek_mut(e, self)
    }
}

impl Erased {
    /// Erases the static type of `value`.
    pub fn new<T: 'static>(value: T) -> (e: Erased) {
        let kind = Kind::<T>::of();
        kind.erase(value)
    }

    /// The key of the value's runtime type.
    pub fn key(&self) -> (key: TypeId)
        ensures
            key == erased_key(*self),
    {
        runtime_key(self)
    }

    /// Restores the value to a `T`. That succeeds exactly where the value
    /// answers for one key, the key of `T`; otherwise the erased value comes
    /// back untouched.
    pub fn downcast<T: 'static>(self) -> (r: Result<Box<T>, Erased>)
        ensures
            exists|key: TypeId| #[trigger] answers(self, key, r is Ok),
            r matches Err(back) ==> back == self,
    {
        let kind = Kind::<T>::of();
        let r = kind.downcast(self);
        proof {
            assert(answers(self, kind@, r is Ok));
        }
        r
    }

    /// Borrows the value as a `T`, exactly where the value answers for one
    /// key, the key of `T`.
    pub fn downcast_ref<T: 'static>(&self) -> (r: Option<&T>)
        ensures
            exists|key: TypeId| #[trigger] answers(*self, key, r is Some),
    {
        let kind = Kind::<T>::of();
        let r = kind.downcast_ref(self);
        proof {
            assert(answers(*self, kind@, r is Some));
        }
        r
    }

    /// Borrows the value as a `T` to be changed in place, exactly where the
    /// value answers for one key, the key of `T`. Whatever the caller writes,
    /// the key stays; where nothing is lent, the value stays as it is.
    pub fn downcast_mut<T: 'static>(&mut self) -> (r: Option<&mut T>)
        ensures
            exists|key: TypeId| #[trigger] answers(*old(self), key, r is Some),
            erased_key(*final(self)) == erased_key(*old(self)),
            r is None ==> *final(self) == *old(self),
    {
        let kind = Kind::<T>::of();
        kind.downcast_mut(self)
    }
}

} // verus!
