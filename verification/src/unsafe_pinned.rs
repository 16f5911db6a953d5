use vstd::prelude::*;

verus! {

/// `PhantomPinned`, a marker that keeps a type from being `Unpin`.
#[verifier::external_type_specification]
#[verifier::external_body]
pub struct ExPhantomPinned(std::marker::PhantomPinned);

/// `PhantomPinned::default`, which makes the marker; nothing is stated of the
/// marker, which holds no data.
pub assume_specification[<std::marker::PhantomPinned as core::default::Default>::default]() -> std::marker::PhantomPinned;

/// `PhantomPinned::clone`, which copies the marker; nothing is stated of the
/// copy, which holds no data.
pub assume_specification[<std::marker::PhantomPinned as core::clone::Clone>::clone](marker: &std::marker::PhantomPinned) -> std::marker::PhantomPinned;

/// A cell whose contents may be aliased while it is pinned: the type is never
/// `Unpin`, so pinned code may hand out access to the value it wraps.
#[derive(Debug, Clone, Copy, PartialEq, Eq, PartialOrd, Ord, Hash)]
pub struct UnsafePinned<T: ?Sized> {
    not_unpin: std::marker::PhantomPinned,
    /// The data stored in this aliased field.
    value: T,
}

impl<T> View for UnsafePinned<T> {
    type V = T;

    /// The wrapped value.
    closed spec fn view(&self) -> T {
        self.value
    }
}

impl<T> UnsafePinned<T> {
    /// Constructs a new instance of `UnsafePinned` which will wrap the
    /// specified value.
    pub fn new(value: T) -> (r: UnsafePinned<T>)
        ensures
            r@ == value,
    {
        UnsafePinned { value, not_unpin: std::marker::PhantomPinned::default() }
    }

    /// Gives back the wrapped value.
    pub fn into_inner(self) -> (r: T)
        ensures
            r == self@,
    {
        self.value
    }

    /// Read-write access to the contents of an `UnsafePinned`; what is
    /// written through it becomes the new contents.
    pub fn get_mut_unchecked(&mut self) -> (r: &mut T)
        ensures
            *r == old(self)@,
            final(self)@ == *final(r),
    {
        &mut self.value
    }

    /// Read-only access to the contents of a shared `UnsafePinned`.
    pub fn get(&self) -> (r: &T)
        ensures
            *r == self@,
    {
        &self.value
    }

    /// Read-write access to the contents of the `UnsafePinned` that `this`
    /// refers to.
    pub fn raw_get_mut(this: &mut Self) -> (r: &mut T)
        ensures
            *r == old(this)@,
            final(this)@ == *final(r),
    {
        &mut this.value
    }

    /// Read-only access to the contents of the `UnsafePinned` that `this`
    /// refers to.
    pub fn raw_get(this: &Self) -> (r: &T)
        ensures
            *r == this@,
    {
        &this.value
    }
}

} // verus!
