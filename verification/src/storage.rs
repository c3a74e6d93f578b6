//! Storage for the derivative views.
//!
//! The same capability as [`crate::containers`], under the names that the
//! derivative layer is written against: a flat item sequence, conversion
//! into an owned buffer, and in-place writes for the mutable variants.

use vstd::prelude::*;

verus! {

/// A buffer that can be converted into an owned buffer of its items.
pub trait IntoOwned: Sized {
    /// The item type the buffer holds.
    type Item;

    /// The item sequence the buffer holds.
    spec fn contents(self) -> Seq<Self::Item>;

    fn into_owned(self) -> (r: Vec<Self::Item>)
        ensures
            r@ == self.contents(),
    ;
}

/// A buffer that is its own owned form.
pub trait Owned: IntoOwned {

}

/// Read-only storage: the items lie in one contiguous run.
pub trait ConstStorage: IntoOwned where Self::Item: Copy {
    fn slice(&self) -> (r: &[Self::Item])
        ensures
            r@ == self.contents(),
    ;

    fn from_slice(s: &[Self::Item]) -> (r: Vec<Self::Item>)
        ensures
            r@ == s@,
    ;
}

/// Storage whose items can be written in place.
pub trait MutStorage: ConstStorage where Self::Item: Copy {
    fn set_item(&mut self, i: usize, v: Self::Item)
        requires
            i < old(self).contents().len(),
        ensures
            final(self).contents() == old(self).contents().update(i as int, v),
    ;

    fn item_mut(&mut self, i: usize) -> (r: &mut Self::Item)
        requires
            i < old(self).contents().len(),
        ensures
            *r == old(self).contents()[i as int],
            final(self).contents() == old(self).contents().update(i as int, *final(r)),
    ;
}

/// Mutable storage that owns its buffer.
pub trait OwnedStorage: MutStorage where Self::Item: Copy {

}

impl<T: Copy> IntoOwned for Vec<T> {
    type Item = T;

    open spec fn contents(self) -> Seq<T> {
        self@
    }

    fn into_owned(self) -> (r: Vec<T>) {
        self
    }
}

impl<T: Copy> Owned for Vec<T> {

}

impl<T: Copy> ConstStorage for Vec<T> {
    fn slice(&self) -> (r: &[T]) {
        self.as_slice()
    }

    fn from_slice(s: &[T]) -> (r: Vec<T>) {
        vstd::slice::slice_to_vec(s)
    }
}

impl<T: Copy> MutStorage for Vec<T> {
    fn set_item(&mut self, i: usize, v: T) {
        self[i] = v;
    }

    fn item_mut(&mut self, i: usize) -> (r: &mut T) {
        &mut self[i]
    }
}

impl<T: Copy> OwnedStorage for Vec<T> {

}

impl<'a, T: Copy> IntoOwned for &'a [T] {
    type Item = T;

    open spec fn contents(self) -> Seq<T> {
        self@
    }

    fn into_owned(self) -> (r: Vec<T>) {
        vstd::slice::slice_to_vec(self)
    }
}

impl<'a, T: Copy> ConstStorage for &'a [T] {
    fn slice(&self) -> (r: &[T]) {
        *self
    }

    fn from_slice(s: &[T]) -> (r: Vec<T>) {
        vstd::slice::slice_to_vec(s)
    }
}

} // verus!
